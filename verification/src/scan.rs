//! Character classes and verified helpers for scanning text.
//!
//! Both parsers of this crate (the markup parser and the stylesheet
//! parser) consume the longest prefix of their input whose characters
//! belong to some class. `run_len` is the specification of that prefix
//! length, and the lemmas below characterize it so that scanning loops
//! can be verified against it.

use vstd::prelude::*;

verus! {

/// A class of characters that a scanning loop may consume.
#[derive(Clone, Copy)]
pub enum CharClass {
    /// Letters, digits, `-` and `_`: selector identifiers.
    Identifier,
    /// Letters, digits and `-`: declaration property names and tag names.
    Name,
    /// The characters permitted in a declaration value.
    DeclValue,
    /// Blank characters.
    Whitespace,
    /// Any character except `<`.
    NotLt,
    /// Any character except the given one.
    NotChar(char),
}

/// Whether `c` belongs to the class `cls`.
pub open spec fn class_allows(cls: CharClass, c: char) -> bool {
    match cls {
        CharClass::Identifier => is_letter(c) || is_digit(c) || c == '-' || c == '_',
        CharClass::Name => is_letter(c) || is_digit(c) || c == '-',
        CharClass::DeclValue => is_letter(c) || is_digit(c) || c == '-' || c == '_' || c == '#'
            || c == '\'' || c == '"' || c == '(' || c == ')' || c == ' ' || c == ',',
        CharClass::Whitespace => is_blank(c),
        CharClass::NotLt => c != '<',
        CharClass::NotChar(stop) => c != stop,
    }
}

/// ASCII letter.
pub open spec fn is_letter(c: char) -> bool {
    ('a' <= c && c <= 'z') || ('A' <= c && c <= 'Z')
}

/// ASCII digit.
pub open spec fn is_digit(c: char) -> bool {
    '0' <= c && c <= '9'
}

/// Blank characters: space, tab, line feed, carriage return and form feed.
pub open spec fn is_blank(c: char) -> bool {
    c == ' ' || c == '\t' || c == '\n' || c == '\r' || c == '\u{c}'
}

/// Executable test for `class_allows`.
pub fn char_in_class(cls: CharClass, c: char) -> (b: bool)
    ensures
        b == class_allows(cls, c),
{
    match cls {
        CharClass::Identifier => is_letter_exec(c) || is_digit_exec(c) || c == '-' || c == '_',
        CharClass::Name => is_letter_exec(c) || is_digit_exec(c) || c == '-',
        CharClass::DeclValue => is_letter_exec(c) || is_digit_exec(c) || c == '-' || c == '_'
            || c == '#' || c == '\'' || c == '"' || c == '(' || c == ')' || c == ' ' || c == ',',
        CharClass::Whitespace => c == ' ' || c == '\t' || c == '\n' || c == '\r' || c == '\u{c}',
        CharClass::NotLt => c != '<',
        CharClass::NotChar(stop) => c != stop,
    }
}

/// Executable test for `is_letter`.
pub fn is_letter_exec(c: char) -> (b: bool)
    ensures
        b == is_letter(c),
{
    ('a' <= c && c <= 'z') || ('A' <= c && c <= 'Z')
}

/// Executable test for `is_digit`.
pub fn is_digit_exec(c: char) -> (b: bool)
    ensures
        b == is_digit(c),
{
    '0' <= c && c <= '9'
}

/// Length of the longest prefix of `s` whose characters all belong to `cls`.
pub open spec fn run_len(s: Seq<char>, cls: CharClass) -> nat
    decreases s.len(),
{
    if s.len() == 0 || !class_allows(cls, s[0]) {
        0
    } else {
        1 + run_len(s.skip(1), cls)
    }
}

/// `run_len` never exceeds the length of the sequence, every character
/// before it belongs to the class, and the character at it (if any) does not.
pub proof fn lemma_run_len_props(s: Seq<char>, cls: CharClass)
    ensures
        run_len(s, cls) <= s.len(),
        forall|i: int| 0 <= i < run_len(s, cls) ==> class_allows(cls, s[i]),
        run_len(s, cls) < s.len() ==> !class_allows(cls, s[run_len(s, cls) as int]),
    decreases s.len(),
{
    if s.len() == 0 || !class_allows(cls, s[0]) {
    } else {
        lemma_run_len_props(s.skip(1), cls);
        assert forall|i: int| 0 <= i < run_len(s, cls) implies class_allows(cls, s[i]) by {
            if i > 0 {
                assert(s.skip(1)[i - 1] == s[i]);
            }
        }
        if run_len(s, cls) < s.len() {
            assert(s.skip(1)[run_len(s, cls) - 1] == s[run_len(s, cls) as int]);
        }
    }
}

/// Ambient form of the length bound on `run_len`.
pub broadcast proof fn lemma_run_len_le(s: Seq<char>, cls: CharClass)
    ensures
        #[trigger] run_len(s, cls) <= s.len(),
{
    lemma_run_len_props(s, cls);
}

/// Why parsing stopped: the error taxonomy of both parsers.
#[derive(Clone, Copy, Debug, PartialEq, Eq, Structural)]
pub enum ParseError {
    /// The input ended where more was required.
    UnexpectedEnd,
    /// A character no grammar rule accepts at this position.
    UnexpectedCharacter,
    /// A closing tag does not match the open element.
    UnbalancedTag,
    /// An attribute name not followed by `=`.
    MissingAttributeEquals,
}

/// Any index with the three properties of `lemma_run_len_props` is `run_len`.
pub proof fn lemma_run_len_unique(s: Seq<char>, cls: CharClass, k: int)
    requires
        0 <= k <= s.len(),
        forall|i: int| 0 <= i < k ==> class_allows(cls, s[i]),
        k < s.len() ==> !class_allows(cls, s[k]),
    ensures
        run_len(s, cls) == k,
{
    lemma_run_len_props(s, cls);
    if run_len(s, cls) < k {
        assert(class_allows(cls, s[run_len(s, cls) as int]));
    }
    if run_len(s, cls) > k {
        assert(class_allows(cls, s[k]));
    }
}

/// Segments of `s` between occurrences of the separator `sep`.
/// Consecutive separators and separators at either end yield empty
/// segments, as `str::split` does.
pub open spec fn split_on(s: Seq<char>, sep: char) -> Seq<Seq<char>>
    decreases s.len(),
{
    if s.len() == 0 {
        seq![s]
    } else if s[0] == sep {
        seq![Seq::empty()] + split_on(s.skip(1), sep)
    } else {
        let rest = split_on(s.skip(1), sep);
        seq![seq![s[0]] + rest[0]] + rest.skip(1)
    }
}

/// A split always has at least one segment.
pub proof fn lemma_split_on_nonempty(s: Seq<char>, sep: char)
    ensures
        split_on(s, sep).len() >= 1,
    decreases s.len(),
{
    if s.len() > 0 {
        lemma_split_on_nonempty(s.skip(1), sep);
    }
}

/// A split steps one whole segment at a time: the first segment is the
/// run of non-separator characters, and the rest is the split of what
/// follows the separator.
pub proof fn lemma_split_on_segment(s: Seq<char>, sep: char)
    ensures
        split_on(s, sep).first() == s.take(run_len(s, CharClass::NotChar(sep)) as int),
        run_len(s, CharClass::NotChar(sep)) == s.len() ==> split_on(s, sep) == seq![s],
        run_len(s, CharClass::NotChar(sep)) < s.len() ==> split_on(s, sep)
            == seq![s.take(run_len(s, CharClass::NotChar(sep)) as int)]
                + split_on(s.skip(run_len(s, CharClass::NotChar(sep)) as int + 1), sep),
    decreases s.len(),
{
    lemma_split_on_nonempty(s, sep);
    let r = run_len(s, CharClass::NotChar(sep));
    lemma_run_len_props(s, CharClass::NotChar(sep));
    if s.len() == 0 {
        assert(split_on(s, sep).first() =~= s.take(r as int));
    } else if s[0] == sep {
        assert(r == 0);
        assert(split_on(s, sep).first() =~= s.take(0));
        assert(seq![Seq::<char>::empty()] + split_on(s.skip(1), sep)
            =~~= seq![s.take(0)] + split_on(s.skip(1int), sep));
    } else {
        lemma_split_on_segment(s.skip(1), sep);
        lemma_split_on_nonempty(s.skip(1), sep);
        let r1 = run_len(s.skip(1), CharClass::NotChar(sep));
        assert(r == 1 + r1);
        let rest = split_on(s.skip(1), sep);
        assert(split_on(s, sep).first() == seq![s[0]] + rest[0]);
        assert(rest.first() == s.skip(1).take(r1 as int));
        assert(seq![s[0]] + s.skip(1).take(r1 as int) =~= s.take(r as int));
        if r == s.len() {
            assert(r1 == s.skip(1).len());
            assert(split_on(s.skip(1), sep) == seq![s.skip(1)]);
            assert(split_on(s, sep) =~~= seq![s]);
        } else {
            assert(r1 < s.skip(1).len());
            assert(s.skip(1).skip(r1 as int + 1) =~= s.skip(r as int + 1));
            assert(split_on(s, sep)
                =~~= seq![s.take(r as int)] + split_on(s.skip(r as int + 1), sep));
        }
    }
}

/// `s` without leading blanks.
pub open spec fn trim_start(s: Seq<char>) -> Seq<char>
    decreases s.len(),
{
    if s.len() > 0 && is_blank(s[0]) {
        trim_start(s.skip(1))
    } else {
        s
    }
}

/// `s` without trailing blanks.
pub open spec fn trim_end(s: Seq<char>) -> Seq<char>
    decreases s.len(),
{
    if s.len() > 0 && is_blank(s.last()) {
        trim_end(s.drop_last())
    } else {
        s
    }
}

/// `s` without leading and trailing blanks.
pub open spec fn trim(s: Seq<char>) -> Seq<char> {
    trim_end(trim_start(s))
}

/// Value of a sequence of decimal digits, most significant first.
pub open spec fn dec_val(s: Seq<char>) -> int
    decreases s.len(),
{
    if s.len() == 0 {
        0
    } else {
        dec_val(s.drop_last()) * 10 + (s.last() as u32 - '0' as u32)
    }
}

/// All characters are decimal digits (and there is at least one).
pub open spec fn all_digits(s: Seq<char>) -> bool {
    s.len() > 0 && forall|i: int| 0 <= i < s.len() ==> is_digit(s[i])
}

/// Ten to the `n`th power.
pub open spec fn p10(n: nat) -> int
    decreases n,
{
    if n == 0 {
        1
    } else {
        10 * p10((n - 1) as nat)
    }
}

/// A digit string's value is non-negative and below `p10` of its length.
pub proof fn lemma_dec_val_bound(s: Seq<char>)
    requires
        forall|i: int| 0 <= i < s.len() ==> is_digit(s[i]),
    ensures
        0 <= dec_val(s) < p10(s.len()),
    decreases s.len(),
{
    if s.len() > 0 {
        lemma_dec_val_bound(s.drop_last());
    }
}

/// `p10` does not decrease as the exponent grows.
pub proof fn lemma_p10_monotone(a: nat, b: nat)
    requires
        a <= b,
    ensures
        p10(a) <= p10(b),
    decreases b,
{
    if a < b {
        lemma_p10_monotone(a, (b - 1) as nat);
        lemma_dec_val_bound(Seq::empty());
        assert(p10((b - 1) as nat) >= 1) by {
            lemma_p10_pos((b - 1) as nat);
        }
    }
}

/// `p10` is positive.
pub proof fn lemma_p10_pos(n: nat)
    ensures
        p10(n) >= 1,
    decreases n,
{
    if n > 0 {
        lemma_p10_pos((n - 1) as nat);
    }
}

/// A longer digit prefix never has a smaller value.
pub proof fn lemma_dec_val_prefix(s: Seq<char>, i: int)
    requires
        forall|j: int| 0 <= j < s.len() ==> is_digit(s[j]),
        0 <= i <= s.len(),
    ensures
        dec_val(s.take(i)) <= dec_val(s),
    decreases s.len() - i,
{
    if i < s.len() {
        lemma_dec_val_prefix(s.drop_last(), i);
        assert(s.drop_last().take(i) =~= s.take(i));
        lemma_dec_val_bound(s.drop_last());
    } else {
        assert(s.take(i) =~= s);
    }
}


/// `trim_start` drops exactly the leading run of blanks.
pub proof fn lemma_trim_start_run(s: Seq<char>)
    ensures
        trim_start(s) == s.skip(run_len(s, CharClass::Whitespace) as int),
    decreases s.len(),
{
    if s.len() > 0 && is_blank(s[0]) {
        lemma_trim_start_run(s.skip(1));
        let r = run_len(s, CharClass::Whitespace);
        lemma_run_len_props(s, CharClass::Whitespace);
        assert(s.skip(1).skip(r as int - 1) =~= s.skip(r as int));
    } else {
        assert(s.skip(0) =~= s);
    }
}

/// If everything from `k` on is blank and the character before `k` is
/// not, `trim_end` keeps exactly the first `k` characters.
pub proof fn lemma_trim_end_shape(t: Seq<char>, k: int)
    requires
        0 <= k <= t.len(),
        forall|i: int| k <= i < t.len() ==> is_blank(t[i]),
        k > 0 ==> !is_blank(t[k - 1]),
    ensures
        trim_end(t) == t.take(k),
    decreases t.len(),
{
    if t.len() > k {
        lemma_trim_end_shape(t.drop_last(), k);
        assert(t.drop_last().take(k) =~= t.take(k));
    } else {
        if !(t.len() > 0 && is_blank(t.last())) {
            assert(trim_end(t) == t);
        }
        assert(t.take(k) =~= t);
    }
}

/// Executable test for `is_blank`.
pub fn is_blank_exec(c: char) -> (b: bool)
    ensures
        b == is_blank(c),
{
    c == ' ' || c == '\t' || c == '\n' || c == '\r' || c == '\u{c}'
}

/// `s` with leading and trailing blanks removed.
pub fn trim_exec(s: &str) -> (r: String)
    ensures
        r@ == trim(s@),
{
    let n: usize = s.unicode_len();
    let mut a: usize = 0;
    while a < n && is_blank_exec(s.get_char(a))
        invariant
            a <= n,
            n == s@.len(),
            forall|j: int| 0 <= j < a ==> is_blank(s@[j]),
        decreases n - a,
    {
        a += 1;
    }
    proof {
        lemma_run_len_unique(s@, CharClass::Whitespace, a as int);
        lemma_trim_start_run(s@);
    }
    let mut b: usize = n;
    while b > a && is_blank_exec(s.get_char(b - 1))
        invariant
            a <= b <= n,
            n == s@.len(),
            forall|j: int| b <= j < n ==> is_blank(s@[j]),
        decreases b,
    {
        b -= 1;
    }
    proof {
        let t = s@.skip(a as int);
        assert(forall|i: int| b - a <= i < t.len() ==> is_blank(t[i]));
        if b > a {
            assert(!is_blank(t[b - a - 1]));
        }
        lemma_trim_end_shape(t, b - a);
        assert(t.take(b - a) =~= s@.subrange(a as int, b as int));
    }
    s.substring_char(a, b).to_owned()
}

/// Splits `s` at every occurrence of `sep`.
pub fn split_on_exec(s: &str, sep: char) -> (r: Vec<String>)
    ensures
        r@.map_values(|x: String| x@) == split_on(s@, sep),
{
    let n: usize = s.unicode_len();
    let mut out: Vec<String> = Vec::new();
    let mut pos: usize = 0;
    proof {
        assert(s@.skip(0) =~= s@);
        assert(out@.map_values(|x: String| x@) + split_on(s@, sep) =~~= split_on(s@, sep));
    }
    loop
        invariant_except_break
            pos <= n,
            n == s@.len(),
            split_on(s@, sep) == out@.map_values(|x: String| x@) + split_on(
                s@.skip(pos as int),
                sep,
            ),
        ensures
            out@.map_values(|x: String| x@) == split_on(s@, sep),
        decreases n - pos,
    {
        let start = pos;
        while pos < n && s.get_char(pos) != sep
            invariant
                start <= pos <= n,
                n == s@.len(),
                forall|j: int| start <= j < pos ==> s@[j] != sep,
            decreases n - pos,
        {
            pos += 1;
        }
        let ghost t = s@.skip(start as int);
        proof {
            assert(forall|j: int| 0 <= j < pos - start ==> t[j] != sep);
            if pos < n {
                assert(t[pos - start] == sep);
            }
            lemma_run_len_unique(t, CharClass::NotChar(sep), pos - start);
            lemma_split_on_segment(t, sep);
        }
        let seg = s.substring_char(start, pos).to_owned();
        out.push(seg);
        if pos == n {
            proof {
                assert(split_on(t, sep) == seq![t]);
                assert(t.take(pos - start) =~= t);
                assert(out@.map_values(|x: String| x@) =~~= split_on(s@, sep));
            }
            break;
        }
        proof {
            assert(split_on(t, sep) == seq![t.take(pos - start)] + split_on(
                t.skip(pos - start + 1),
                sep,
            ));
            assert(t.skip(pos - start + 1) =~= s@.skip(pos as int + 1));
            assert(out@.map_values(|x: String| x@) + split_on(s@.skip(pos as int + 1), sep)
                =~~= split_on(s@, sep));
        }
        pos += 1;
    }
    out
}

/// Value of an optionally `-`-signed run of at most 17 decimal digits;
/// anything else (empty, a stray character, or a longer digit run)
/// counts 0, mirroring the permissive "unparseable length is zero"
/// fallback of declaration values.
pub open spec fn int_lit_val(s: Seq<char>) -> int {
    let body = if s.len() > 0 && s[0] == '-' {
        s.skip(1)
    } else {
        s
    };
    if !all_digits(body) || body.len() > 17 {
        0
    } else if s.len() > 0 && s[0] == '-' {
        -dec_val(body)
    } else {
        dec_val(body)
    }
}

/// Parses a decimal integer in `0 ..= 255`, as the components of an
/// `rgba(...)` color are written.
pub fn parse_u8_lit(t: &str) -> (r: Option<u8>)
    ensures
        r is Some <==> all_digits(t@) && dec_val(t@) <= 255,
        r is Some ==> r->Some_0 as int == dec_val(t@),
{
    let n: usize = t.unicode_len();
    if n == 0 {
        return None;
    }
    let mut i: usize = 0;
    while i < n
        invariant
            i <= n,
            n == t@.len(),
            forall|j: int| 0 <= j < i ==> is_digit(t@[j]),
        decreases n - i,
    {
        if !is_digit_exec(t.get_char(i)) {
            return None;
        }
        i += 1;
    }
    let mut acc: u32 = 0;
    let mut k: usize = 0;
    while k < n
        invariant
            k <= n,
            n == t@.len(),
            all_digits(t@),
            acc <= 255,
            acc == dec_val(t@.take(k as int)),
        decreases n - k,
    {
        let c = t.get_char(k);
        let d: u32 = c as u32 - 48;
        acc = acc * 10 + d;
        proof {
            assert(t@.take(k as int + 1).drop_last() =~= t@.take(k as int));
            assert(t@.take(k as int + 1).last() == t@[k as int]);
        }
        if acc > 255 {
            proof {
                lemma_dec_val_prefix(t@, k as int + 1);
            }
            return None;
        }
        k += 1;
    }
    proof {
        assert(t@.take(n as int) =~= t@);
    }
    Some(acc as u8)
}

/// `p10(17)` written out.
pub proof fn lemma_p10_17()
    ensures
        p10(17) == 0x16345785d8a0000,
{
    reveal_with_fuel(p10, 18);
}

/// Parses an optionally signed decimal integer under the rules of
/// `int_lit_val`.
pub fn parse_int_lit(t: &str) -> (r: i64)
    ensures
        r as int == int_lit_val(t@),
{
    let n: usize = t.unicode_len();
    let neg = n > 0 && t.get_char(0) == '-';
    let start: usize = if neg {
        1
    } else {
        0
    };
    let ghost body = if neg {
        t@.skip(1)
    } else {
        t@
    };
    let m: usize = n - start;
    proof {
        assert(body.len() == m);
    }
    if m == 0 || m > 17 {
        return 0;
    }
    let mut i: usize = 0;
    while i < m
        invariant
            i <= m,
            m == body.len(),
            start + m == n,
            n == t@.len(),
            start < 2,
            body == (if t@.len() > 0 && t@[0] == '-' {
                t@.skip(1)
            } else {
                t@
            }),
            forall|j: int| 0 <= j < body.len() ==> body[j] == t@[start + j],
            forall|j: int| 0 <= j < i ==> is_digit(body[j]),
        decreases m - i,
    {
        if !is_digit_exec(t.get_char(start + i)) {
            proof {
                assert(body[i as int] == t@[start + i as int]);
                assert(!all_digits(body));
            }
            return 0;
        }
        i += 1;
    }
    let mut acc: i64 = 0;
    let mut k: usize = 0;
    proof {
        lemma_p10_17();
    }
    while k < m
        invariant
            k <= m,
            m <= 17,
            m == body.len(),
            start + m == n,
            n == t@.len(),
            start < 2,
            all_digits(body),
            body == (if t@.len() > 0 && t@[0] == '-' {
                t@.skip(1)
            } else {
                t@
            }),
            neg == (t@.len() > 0 && t@[0] == '-'),
            forall|j: int| 0 <= j < body.len() ==> body[j] == t@[start + j],
            0 <= acc,
            acc == dec_val(body.take(k as int)),
            acc < p10(k as nat),
            p10(17) == 0x16345785d8a0000,
        decreases m - k,
    {
        let c = t.get_char(start + k);
        let d: i64 = c as i64 - 48;
        proof {
            assert(body[k as int] == t@[start + k as int]);
            assert(is_digit(body[k as int]));
            lemma_p10_monotone(k as nat + 1, 17);
            assert(body.take(k as int + 1).drop_last() =~= body.take(k as int));
            assert(body.take(k as int + 1).last() == body[k as int]);
        }
        acc = acc * 10 + d;
        k += 1;
    }
    proof {
        assert(body.take(m as int) =~= body);
    }
    if neg {
        -acc
    } else {
        acc
    }
}

/// Verified character-wise equality of two string slices.
pub fn str_eq(a: &str, b: &str) -> (r: bool)
    ensures
        r == (a@ == b@),
{
    let alen: usize = a.unicode_len();
    let blen: usize = b.unicode_len();
    if alen != blen {
        return false;
    }
    let mut i: usize = 0;
    while i < alen
        invariant
            alen == a@.len(),
            blen == b@.len(),
            alen == blen,
            i <= alen,
            forall|j: int| 0 <= j < i ==> a@[j] == b@[j],
        decreases alen - i,
    {
        if a.get_char(i) != b.get_char(i) {
            return false;
        }
        i += 1;
    }
    proof {
        assert(a@ =~= b@);
    }
    true
}

} // verus!
