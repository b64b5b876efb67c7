//! What the command-running builtins hand back, computed from what the
//! command produced: its standard output as trimmed text, or its exit code
//! as decimal text.

use vstd::prelude::*;
use vstd::string::StringSliceAdditionalSpecFns;
use vstd::utf8::{decode_utf8, valid_utf8};

use crate::text::to_chars;

verus! {

broadcast use vstd::string::group_string_axioms;

/// Wraps `std::str::from_utf8`: std documents that it succeeds exactly on
/// valid UTF-8, and then the text is those same bytes.
#[verifier::external_body]
fn utf8_str(bytes: &[u8]) -> (r: Option<&str>)
    ensures
        r is Some <==> valid_utf8(bytes@),
        r matches Some(s) ==> s.spec_bytes() == bytes@,
{
    std::str::from_utf8(bytes).ok()
}

/// The Unicode `White_Space` property, which `char::is_whitespace` and
/// `str::trim` go by: tab to carriage return, space, next line, no-break
/// space, ogham space mark, en quad to hair space, line and paragraph
/// separator, narrow no-break space, medium mathematical space, and
/// ideographic space.
pub open spec fn is_unicode_whitespace(c: char) -> bool {
    let u = c as u32;
    ||| 0x09 <= u <= 0x0d
    ||| u == 0x20
    ||| u == 0x85
    ||| u == 0xa0
    ||| u == 0x1680
    ||| 0x2000 <= u <= 0x200a
    ||| u == 0x2028
    ||| u == 0x2029
    ||| u == 0x202f
    ||| u == 0x205f
    ||| u == 0x3000
}

/// Whether `c` is white space.
pub fn char_is_whitespace(c: char) -> (r: bool)
    ensures
        r == is_unicode_whitespace(c),
{
    let u = c as u32;
    (0x09 <= u && u <= 0x0d) || u == 0x20 || u == 0x85 || u == 0xa0 || u == 0x1680 || (0x2000 <= u
        && u <= 0x200a) || u == 0x2028 || u == 0x2029 || u == 0x202f || u == 0x205f || u == 0x3000
}

/// Wraps `String::push`: std documents that it appends the character.
#[verifier::external_body]
fn push_char(s: &mut String, c: char)
    ensures
        final(s)@ == old(s)@.push(c),
{
    s.push(c)
}

/// `s` without its leading white space.
pub open spec fn trim_start_spec(s: Seq<char>) -> Seq<char>
    decreases s.len(),
{
    if s.len() > 0 && is_unicode_whitespace(s[0]) {
        trim_start_spec(s.drop_first())
    } else {
        s
    }
}

/// `s` without its trailing white space.
pub open spec fn trim_end_spec(s: Seq<char>) -> Seq<char>
    decreases s.len(),
{
    if s.len() > 0 && is_unicode_whitespace(s.last()) {
        trim_end_spec(s.drop_last())
    } else {
        s
    }
}

/// `s` without leading and trailing white space, as `str::trim` gives it.
pub open spec fn trim_spec(s: Seq<char>) -> Seq<char> {
    trim_end_spec(trim_start_spec(s))
}

proof fn lemma_trim_start(s: Seq<char>, a: int)
    requires
        0 <= a <= s.len(),
        forall|k: int| 0 <= k < a ==> is_unicode_whitespace(#[trigger] s[k]),
        a == s.len() || !is_unicode_whitespace(s[a]),
    ensures
        trim_start_spec(s) == s.subrange(a, s.len() as int),
    decreases a,
{
    if a == 0 {
        assert(s.subrange(0, s.len() as int) =~= s);
    } else {
        let t = s.drop_first();
        assert forall|k: int| 0 <= k < a - 1 implies is_unicode_whitespace(#[trigger] t[k]) by {
            assert(t[k] == s[k + 1]);
        }
        assert(is_unicode_whitespace(s[0]));
        if a < s.len() {
            assert(t[a - 1] == s[a]);
        }
        lemma_trim_start(t, a - 1);
        assert(t.subrange(a - 1, t.len() as int) =~= s.subrange(a, s.len() as int));
    }
}

proof fn lemma_trim_end(s: Seq<char>, b: int)
    requires
        0 <= b <= s.len(),
        forall|k: int| b <= k < s.len() ==> is_unicode_whitespace(#[trigger] s[k]),
        b == 0 || !is_unicode_whitespace(s[b - 1]),
    ensures
        trim_end_spec(s) == s.subrange(0, b),
    decreases s.len() - b,
{
    if b == s.len() {
        assert(s.subrange(0, b) =~= s);
    } else {
        let t = s.drop_last();
        assert forall|k: int| b <= k < t.len() implies is_unicode_whitespace(#[trigger] t[k]) by {
            assert(t[k] == s[k]);
        }
        assert(is_unicode_whitespace(s[s.len() - 1]));
        if b > 0 {
            assert(t[b - 1] == s[b - 1]);
        }
        lemma_trim_end(t, b);
        assert(t.subrange(0, b) =~= s.subrange(0, b));
    }
}


/// How many white space characters `s` starts with.
pub open spec fn leading_white(s: Seq<char>) -> nat
    decreases s.len(),
{
    if s.len() > 0 && is_unicode_whitespace(s[0]) {
        1 + leading_white(s.drop_first())
    } else {
        0
    }
}

/// How many white space characters `s` ends with.
pub open spec fn trailing_white(s: Seq<char>) -> nat
    decreases s.len(),
{
    if s.len() > 0 && is_unicode_whitespace(s.last()) {
        1 + trailing_white(s.drop_last())
    } else {
        0
    }
}

proof fn lemma_leading_white(s: Seq<char>)
    ensures
        leading_white(s) <= s.len(),
        forall|k: int| 0 <= k < leading_white(s) ==> is_unicode_whitespace(#[trigger] s[k]),
        leading_white(s) == s.len() || !is_unicode_whitespace(s[leading_white(s) as int]),
    decreases s.len(),
{
    if s.len() > 0 && is_unicode_whitespace(s[0]) {
        let t = s.drop_first();
        lemma_leading_white(t);
        assert forall|k: int| 0 <= k < leading_white(s) implies is_unicode_whitespace(#[trigger] s[k]) by {
            if k > 0 {
                assert(s[k] == t[k - 1]);
            }
        }
        if leading_white(s) < s.len() {
            assert(s[leading_white(s) as int] == t[leading_white(t) as int]);
        }
    }
}

proof fn lemma_trailing_white(s: Seq<char>)
    ensures
        trailing_white(s) <= s.len(),
        forall|k: int| s.len() - trailing_white(s) <= k < s.len() ==> is_unicode_whitespace(#[trigger] s[k]),
        trailing_white(s) == s.len() || !is_unicode_whitespace(s[s.len() - trailing_white(s) - 1]),
    decreases s.len(),
{
    if s.len() > 0 && is_unicode_whitespace(s.last()) {
        let t = s.drop_last();
        lemma_trailing_white(t);
        assert forall|k: int| s.len() - trailing_white(s) <= k < s.len() implies is_unicode_whitespace(#[trigger] s[k]) by {
            if k < s.len() - 1 {
                assert(s[k] == t[k]);
            }
        }
        if trailing_white(s) < s.len() {
            assert(s[s.len() - trailing_white(s) - 1] == t[t.len() - trailing_white(t) - 1]);
        }
    }
}

/// Trimming removes white space at the two ends and nothing else: the
/// result is the part of `s` between `a` and `b`, everything before `a` and
/// from `b` on is white space, and the result neither starts nor ends with
/// white space.
pub proof fn law_trim_removes_only_edge_white_space(s: Seq<char>) -> (r: (int, int))
    ensures
        0 <= r.0 <= r.1 <= s.len(),
        trim_spec(s) == s.subrange(r.0, r.1),
        forall|k: int| 0 <= k < r.0 ==> is_unicode_whitespace(#[trigger] s[k]),
        forall|k: int| r.1 <= k < s.len() ==> is_unicode_whitespace(#[trigger] s[k]),
        r.0 < r.1 ==> !is_unicode_whitespace(s[r.0]) && !is_unicode_whitespace(s[r.1 - 1]),
{
    lemma_leading_white(s);
    let a = leading_white(s) as int;
    lemma_trim_start(s, a);
    let u = s.subrange(a, s.len() as int);
    lemma_trailing_white(u);
    let b = u.len() - trailing_white(u);
    assert forall|k: int| b <= k < u.len() implies is_unicode_whitespace(#[trigger] u[k]) by {}
    lemma_trim_end(u, b);
    assert(u.subrange(0, b) =~= s.subrange(a, a + b));
    assert forall|k: int| a + b <= k < s.len() implies is_unicode_whitespace(#[trigger] s[k]) by {
        assert(s[k] == u[k - a]);
    }
    if b > 0 {
        assert(s[a] == u[0]);
        assert(s[a + b - 1] == u[b - 1]);
    }
    (a, a + b)
}

/// A text that starts and ends with other than white space is kept whole,
/// line breaks and all.
pub proof fn law_trim_keeps_inner_text(s: Seq<char>)
    requires
        s.len() > 0,
        !is_unicode_whitespace(s[0]),
        !is_unicode_whitespace(s.last()),
    ensures
        trim_spec(s) == s,
{
    lemma_trim_start(s, 0);
    assert(s.subrange(0, s.len() as int) =~= s);
    assert(s[s.len() - 1] == s.last());
    lemma_trim_end(s, s.len() as int);
    assert(s.subrange(0, s.len() as int) =~= s);
}

/// What the `bash` builtin gives for a command's standard output: the
/// output as text without leading and trailing white space; `None` when
/// the output is not valid UTF-8.
pub fn command_output_text(stdout: &[u8]) -> (r: Option<String>)
    ensures
        r is Some <==> valid_utf8(stdout@),
        r matches Some(t) ==> t@ == trim_spec(decode_utf8(stdout@)),
{
    let text = match utf8_str(stdout) {
        Some(text) => text,
        None => {
            return None;
        },
    };
    proof {
        vstd::utf8::encode_utf8_decode_utf8(text@);
    }
    let chars = to_chars(text);
    let ghost s = chars@;
    let mut a: usize = 0;
    while a < chars.len() && char_is_whitespace(chars[a])
        invariant
            s == chars@,
            0 <= a <= chars@.len(),
            forall|k: int| 0 <= k < a ==> is_unicode_whitespace(#[trigger] s[k]),
        decreases chars.len() - a,
    {
        a = a + 1;
    }
    proof {
        lemma_trim_start(s, a as int);
    }
    let ghost u = s.subrange(a as int, s.len() as int);
    let mut b: usize = chars.len();
    while b > a && char_is_whitespace(chars[b - 1])
        invariant
            s == chars@,
            u == s.subrange(a as int, s.len() as int),
            a <= b <= chars@.len(),
            forall|k: int| b <= k < s.len() ==> is_unicode_whitespace(#[trigger] s[k]),
        decreases b,
    {
        b = b - 1;
    }
    proof {
        assert forall|k: int| b - a <= k < u.len() implies is_unicode_whitespace(#[trigger] u[k]) by {
            assert(u[k] == s[a + k]);
        }
        if b > a {
            assert(u[b - a - 1] == s[b - 1]);
        }
        lemma_trim_end(u, b - a);
    }
    let mut out = String::new();
    let mut i = a;
    while i < b
        invariant
            s == chars@,
            a <= i <= b <= chars@.len(),
            out@ == s.subrange(a as int, i as int),
        decreases b - i,
    {
        push_char(&mut out, chars[i]);
        proof {
            assert(s.subrange(a as int, i + 1) =~= s.subrange(a as int, i as int).push(s[i as int]));
        }
        i = i + 1;
    }
    proof {
        assert(u.subrange(0, b - a) =~= s.subrange(a as int, b as int));
    }
    Some(out)
}

/// The decimal digit `d`.
pub open spec fn digit_char(d: int) -> char {
    if d == 0 {
        '0'
    } else if d == 1 {
        '1'
    } else if d == 2 {
        '2'
    } else if d == 3 {
        '3'
    } else if d == 4 {
        '4'
    } else if d == 5 {
        '5'
    } else if d == 6 {
        '6'
    } else if d == 7 {
        '7'
    } else if d == 8 {
        '8'
    } else {
        '9'
    }
}

/// The decimal digits of `n`, most significant first.
pub open spec fn digits_spec(n: nat) -> Seq<char>
    decreases n,
{
    if n < 10 {
        seq![digit_char(n as int)]
    } else {
        digits_spec(n / 10).push(digit_char((n % 10) as int))
    }
}

/// `n` written in decimal, with a `-` before a negative number.
pub open spec fn decimal_spec(n: int) -> Seq<char> {
    if n < 0 {
        seq!['-'] + digits_spec((-n) as nat)
    } else {
        digits_spec(n as nat)
    }
}

fn digit(d: u32) -> (c: char)
    requires
        d < 10,
    ensures
        c == digit_char(d as int),
{
    match d {
        0 => '0',
        1 => '1',
        2 => '2',
        3 => '3',
        4 => '4',
        5 => '5',
        6 => '6',
        7 => '7',
        8 => '8',
        _ => '9',
    }
}

fn push_digits(s: &mut String, n: u32)
    ensures
        final(s)@ == old(s)@ + digits_spec(n as nat),
    decreases n,
{
    if n >= 10 {
        push_digits(s, n / 10);
    }
    push_char(s, digit(n % 10));
    proof {
        if n >= 10 {
            assert(old(s)@ + digits_spec(n as nat) =~= old(s)@ + digits_spec((n / 10) as nat) + seq![digit_char((n % 10) as int)]);
        } else {
            assert(old(s)@ + digits_spec(n as nat) =~= old(s)@.push(digit_char((n % 10) as int)));
        }
    }
}

/// What the `bash_status` builtin gives for an exit code: the code in
/// decimal, or `0` when the command gave no code.
pub fn exit_code_text(code: Option<i32>) -> (r: String)
    ensures
        r@ == decimal_spec(match code {
            Some(c) => c as int,
            None => 0,
        }),
{
    let value: i64 = match code {
        Some(c) => c as i64,
        None => 0,
    };
    let mut out = String::new();
    if value < 0 {
        push_char(&mut out, '-');
        push_digits(&mut out, (-value) as u32);
        proof {
            assert(out@ =~= seq!['-'] + digits_spec((-value) as nat));
        }
    } else {
        push_digits(&mut out, value as u32);
        proof {
            assert(out@ =~= digits_spec(value as nat));
        }
    }
    out
}

} // verus!
