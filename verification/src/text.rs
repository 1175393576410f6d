//! Small helpers on strings.

use vstd::prelude::*;
use vstd::string::StrSliceExecFns;

verus! {

/// The characters of each string.
pub open spec fn texts(strings: Seq<String>) -> Seq<Seq<char>> {
    Seq::new(strings.len(), |i: int| strings[i]@)
}

/// Whether two strings hold the same characters.
pub fn str_equal(a: &str, b: &str) -> (r: bool)
    ensures
        r == (a@ == b@),
{
    let x = a.to_owned();
    let y = b.to_owned();
    x == y
}

/// The position of the first string equal to `name`, if there is one.
pub fn position_of(names: &Vec<String>, name: &str) -> (r: Option<usize>)
    ensures
        r is Some ==> r->0 < names.len() && names[r->0 as int]@ == name@ && forall|i: int|
            0 <= i < r->0 ==> (#[trigger] names[i])@ != name@,
        r is None ==> forall|i: int| 0 <= i < names.len() ==> (#[trigger] names[i])@ != name@,
{
    let mut i: usize = 0;
    while i < names.len()
        invariant
            i <= names.len(),
            forall|t: int| 0 <= t < i ==> (#[trigger] names[t])@ != name@,
        decreases names.len() - i,
    {
        if str_equal(names[i].as_str(), name) {
            return Some(i);
        }
        i += 1;
    }
    None
}

/// The characters of a string.
pub fn chars_of(s: &str) -> (chars: Vec<char>)
    ensures
        chars@ == s@,
{
    let mut chars: Vec<char> = Vec::new();
    for c in it: s.chars()
        invariant
            chars@ == it.seq().take(it.index() as int),
            it.seq() == s@,
    {
        chars.push(c);
        proof {
            assert(it.seq().take(it.index() + 1) =~= it.seq().take(it.index() as int).push(c));
        }
    }
    proof {
        assert(s@.take(s@.len() as int) =~= s@);
    }
    chars
}

/// Whether a character is white space: the characters with the Unicode
/// property `White_Space`.
pub open spec fn is_space(c: char) -> bool {
    let u = c as u32;
    ||| 0x09 <= u <= 0x0d
    ||| u == 0x20
    ||| u == 0x85
    ||| u == 0xa0
    ||| u == 0x1680
    ||| 0x2000 <= u <= 0x200a
    ||| u == 0x2028
    ||| u == 0x2029
    ||| u == 0x202f
    ||| u == 0x205f
    ||| u == 0x3000
}

/// Whether a character is white space.
pub fn is_whitespace(c: char) -> (r: bool)
    ensures
        r == is_space(c),
{
    let u = c as u32;
    (0x09 <= u && u <= 0x0d) || u == 0x20 || u == 0x85 || u == 0xa0 || u == 0x1680 || (0x2000 <= u
        && u <= 0x200a) || u == 0x2028 || u == 0x2029 || u == 0x202f || u == 0x205f || u == 0x3000
}

/// The number of white-space characters at the start of `s`.
pub open spec fn leading_spaces(s: Seq<char>) -> nat
    decreases s.len(),
{
    if s.len() > 0 && is_space(s[0]) {
        1 + leading_spaces(s.drop_first())
    } else {
        0
    }
}

/// `s` without the white space at its start.
pub open spec fn trimmed_start(s: Seq<char>) -> Seq<char> {
    s.skip(leading_spaces(s) as int)
}

/// The number of white-space characters at the end of `s`.
pub open spec fn trailing_spaces(s: Seq<char>) -> nat
    decreases s.len(),
{
    if s.len() > 0 && is_space(s.last()) {
        1 + trailing_spaces(s.drop_last())
    } else {
        0
    }
}

/// `s` without the white space at its end.
pub open spec fn trimmed_end(s: Seq<char>) -> Seq<char> {
    s.take(s.len() - trailing_spaces(s))
}

/// `s` without the white space at its start and at its end.
pub open spec fn trimmed(s: Seq<char>) -> Seq<char> {
    trimmed_end(trimmed_start(s))
}

/// A run of white space up to the first other character is the leading white space.
pub proof fn lemma_leading_spaces_is(s: Seq<char>, n: int)
    requires
        0 <= n <= s.len(),
        forall|i: int| 0 <= i < n ==> is_space(#[trigger] s[i]),
        n < s.len() ==> !is_space(s[n]),
    ensures
        leading_spaces(s) == n,
    decreases s.len(),
{
    if n > 0 {
        let rest = s.drop_first();
        assert forall|i: int| 0 <= i < n - 1 implies is_space(#[trigger] rest[i]) by {
            assert(rest[i] == s[i + 1]);
        }
        if n - 1 < rest.len() {
            assert(rest[n - 1] == s[n]);
        }
        lemma_leading_spaces_is(rest, n - 1);
    }
}

/// A run of white space back to the last other character is the trailing white space.
pub proof fn lemma_trailing_spaces_is(s: Seq<char>, n: int)
    requires
        0 <= n <= s.len(),
        forall|i: int| s.len() - n <= i < s.len() ==> is_space(#[trigger] s[i]),
        n < s.len() ==> !is_space(s[s.len() - n - 1]),
    ensures
        trailing_spaces(s) == n,
    decreases s.len(),
{
    if n > 0 {
        let rest = s.drop_last();
        assert forall|i: int| rest.len() - (n - 1) <= i < rest.len() implies is_space(
            #[trigger] rest[i],
        ) by {
            assert(rest[i] == s[i]);
        }
        if n - 1 < rest.len() {
            assert(rest[rest.len() - (n - 1) - 1] == s[s.len() - n - 1]);
        }
        lemma_trailing_spaces_is(rest, n - 1);
    }
}

/// The position of the first character from `from` up to `to` that is not
/// white space, or `to` where there is none.
pub fn skip_spaces(chars: &Vec<char>, from: usize, to: usize) -> (pos: usize)
    requires
        from <= to <= chars.len(),
    ensures
        pos == from + leading_spaces(chars@.subrange(from as int, to as int)),
        from <= pos <= to,
        trimmed_start(chars@.subrange(from as int, to as int)) == chars@.subrange(
            pos as int,
            to as int,
        ),
{
    let mut i = from;
    while i < to && is_whitespace(chars[i])
        invariant
            from <= i <= to <= chars.len(),
            forall|t: int| from <= t < i ==> is_space(#[trigger] chars[t]),
        decreases to - i,
    {
        i += 1;
    }
    proof {
        let part = chars@.subrange(from as int, to as int);
        assert forall|t: int| 0 <= t < i - from implies is_space(#[trigger] part[t]) by {
            assert(part[t] == chars[from + t]);
        }
        lemma_leading_spaces_is(part, i - from);
        assert(part.skip(i - from) =~= chars@.subrange(i as int, to as int));
    }
    i
}

/// A string of the characters of `input` from `from` up to `to`.
pub fn text_of(input: &str, from: usize, to: usize) -> (text: String)
    requires
        from <= to <= input@.len(),
    ensures
        text@ == input@.subrange(from as int, to as int),
{
    input.substring_char(from, to).to_owned()
}

/// The position after the last character before `to` that is not white
/// space, or `from` where there is none.
pub fn skip_whitespace_back(chars: &Vec<char>, from: usize, to: usize) -> (end: usize)
    requires
        from <= to <= chars.len(),
    ensures
        end == to - trailing_spaces(chars@.subrange(from as int, to as int)),
        from <= end <= to,
{
    let mut i = to;
    while i > from && is_whitespace(chars[i - 1])
        invariant
            from <= i <= to <= chars.len(),
            forall|t: int| i <= t < to ==> is_space(#[trigger] chars[t]),
        decreases i - from,
    {
        i -= 1;
    }
    proof {
        let part = chars@.subrange(from as int, to as int);
        assert forall|t: int| part.len() - (to - i) <= t < part.len() implies is_space(
            #[trigger] part[t],
        ) by {
            assert(part[t] == chars[from + t]);
        }
        lemma_trailing_spaces_is(part, to - i);
    }
    i
}

/// The length of the longest prefix of `s` whose characters all satisfy `p`.
pub open spec fn run_length(s: Seq<char>, p: spec_fn(char) -> bool) -> nat
    decreases s.len(),
{
    if s.len() > 0 && p(s[0]) {
        1 + run_length(s.drop_first(), p)
    } else {
        0
    }
}

/// A prefix of characters that satisfy `p`, up to the first that does not, is the run.
pub proof fn lemma_run_length_is(s: Seq<char>, p: spec_fn(char) -> bool, n: int)
    requires
        0 <= n <= s.len(),
        forall|i: int| 0 <= i < n ==> p(#[trigger] s[i]),
        n < s.len() ==> !p(s[n]),
    ensures
        run_length(s, p) == n,
    decreases s.len(),
{
    if n > 0 {
        let rest = s.drop_first();
        assert forall|i: int| 0 <= i < n - 1 implies p(#[trigger] rest[i]) by {
            assert(rest[i] == s[i + 1]);
        }
        if n - 1 < rest.len() {
            assert(rest[n - 1] == s[n]);
        }
        lemma_run_length_is(rest, p, n - 1);
    }
}

} // verus!
