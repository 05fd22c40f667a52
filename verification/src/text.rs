//! Verified character and string utilities: trimming, prefix handling,
//! line splitting, lexicographic comparison and unsigned-integer parsing.
//!
//! Everything here works on `&str` / `String` values whose mathematical
//! model is a `Seq<char>`.

use vstd::prelude::*;

verus! {

/// The Unicode `White_Space` characters, as `char::is_whitespace` accepts them.
pub open spec fn is_space_char(c: char) -> bool {
    c == '\u{0009}' || c == '\u{000A}' || c == '\u{000B}' || c == '\u{000C}'
        || c == '\u{000D}' || c == '\u{0020}' || c == '\u{0085}' || c == '\u{00A0}'
        || c == '\u{1680}' || c == '\u{2000}' || c == '\u{2001}' || c == '\u{2002}'
        || c == '\u{2003}' || c == '\u{2004}' || c == '\u{2005}' || c == '\u{2006}'
        || c == '\u{2007}' || c == '\u{2008}' || c == '\u{2009}' || c == '\u{200A}'
        || c == '\u{2028}' || c == '\u{2029}' || c == '\u{202F}' || c == '\u{205F}'
        || c == '\u{3000}'
}

/// Decides `is_space_char`.
pub fn is_space(c: char) -> (r: bool)
    ensures
        r == is_space_char(c),
{
    c == '\u{0009}' || c == '\u{000A}' || c == '\u{000B}' || c == '\u{000C}'
        || c == '\u{000D}' || c == '\u{0020}' || c == '\u{0085}' || c == '\u{00A0}'
        || c == '\u{1680}' || c == '\u{2000}' || c == '\u{2001}' || c == '\u{2002}'
        || c == '\u{2003}' || c == '\u{2004}' || c == '\u{2005}' || c == '\u{2006}'
        || c == '\u{2007}' || c == '\u{2008}' || c == '\u{2009}' || c == '\u{200A}'
        || c == '\u{2028}' || c == '\u{2029}' || c == '\u{202F}' || c == '\u{205F}'
        || c == '\u{3000}'
}

/// `s` with its leading whitespace removed.
pub open spec fn trim_start_seq(s: Seq<char>) -> Seq<char>
    decreases s.len(),
{
    if s.len() > 0 && is_space_char(s[0]) {
        trim_start_seq(s.drop_first())
    } else {
        s
    }
}

/// `s` with its trailing whitespace removed.
pub open spec fn trim_end_seq(s: Seq<char>) -> Seq<char>
    decreases s.len(),
{
    if s.len() > 0 && is_space_char(s.last()) {
        trim_end_seq(s.drop_last())
    } else {
        s
    }
}

/// `s` with whitespace removed from both ends, as `str::trim` leaves it.
pub open spec fn trimmed(s: Seq<char>) -> Seq<char> {
    trim_end_seq(trim_start_seq(s))
}

/// `p` is a prefix of `s`.
pub open spec fn has_prefix_seq(s: Seq<char>, p: Seq<char>) -> bool {
    p.len() <= s.len() && s.take(p.len() as int) == p
}

/// Returns whether the characters of `p` open the string `s`.
pub fn has_prefix(s: &str, p: &str) -> (r: bool)
    ensures
        r == has_prefix_seq(s@, p@),
{
    let sn = s.unicode_len();
    let pn = p.unicode_len();
    if pn > sn {
        assert(!has_prefix_seq(s@, p@));
        return false;
    }
    let mut i: usize = 0;
    while i < pn
        invariant
            i <= pn <= sn,
            sn == s@.len(),
            pn == p@.len(),
            forall|j: int| 0 <= j < i ==> s@[j] == p@[j],
        decreases pn - i,
    {
        if s.get_char(i) != p.get_char(i) {
            assert(s@.take(pn as int)[i as int] != p@[i as int]);
            return false;
        }
        i = i + 1;
    }
    assert(s@.take(pn as int) =~= p@);
    true
}

/// Returns whether two strings hold the same characters.
pub fn str_eq(a: &str, b: &str) -> (r: bool)
    ensures
        r == (a@ == b@),
{
    let an = a.unicode_len();
    let bn = b.unicode_len();
    if an != bn {
        return false;
    }
    let mut i: usize = 0;
    while i < an
        invariant
            i <= an,
            an == a@.len(),
            an == b@.len(),
            forall|j: int| 0 <= j < i ==> a@[j] == b@[j],
        decreases an - i,
    {
        if a.get_char(i) != b.get_char(i) {
            return false;
        }
        i = i + 1;
    }
    assert(a@ =~= b@);
    true
}

/// The concatenation of two strings.
pub fn concat_str(a: &str, b: &str) -> (r: String)
    ensures
        r@ == a@ + b@,
{
    let mut s = String::from_str(a);
    s.append(b);
    s
}

/// Returns whether `s` ends with the character `c`.
pub fn ends_with_char(s: &str, c: char) -> (r: bool)
    ensures
        r == (s@.len() > 0 && s@.last() == c),
{
    let n = s.unicode_len();
    if n == 0 {
        false
    } else {
        s.get_char(n - 1) == c
    }
}

proof fn lemma_trim_start_skip(s: Seq<char>, i: int)
    requires
        0 <= i <= s.len(),
        forall|j: int| 0 <= j < i ==> is_space_char(s[j]),
    ensures
        trim_start_seq(s) == trim_start_seq(s.skip(i)),
    decreases i,
{
    if i > 0 {
        assert(s.len() > 0 && is_space_char(s[0]));
        assert(trim_start_seq(s) == trim_start_seq(s.drop_first()));
        assert(s.drop_first() =~= s.skip(1));
        lemma_trim_start_skip(s.skip(1), i - 1);
        assert(s.skip(1).skip(i - 1) =~= s.skip(i));
    } else {
        assert(s.skip(0) =~= s);
    }
}

proof fn lemma_trim_end_take(s: Seq<char>, i: int)
    requires
        0 <= i <= s.len(),
        forall|j: int| i <= j < s.len() ==> is_space_char(s[j]),
    ensures
        trim_end_seq(s) == trim_end_seq(s.take(i)),
    decreases s.len() - i,
{
    if i < s.len() {
        assert(s.len() > 0 && is_space_char(s.last()));
        assert(trim_end_seq(s) == trim_end_seq(s.drop_last()));
        assert(s.drop_last() =~= s.take(s.len() - 1));
        lemma_trim_end_take(s.take(s.len() - 1), i);
        assert(s.take(s.len() - 1).take(i) =~= s.take(i));
    } else {
        assert(s.take(i) =~= s);
    }
}

/// Returns the slice of `s` with whitespace removed from both ends.
pub fn trim_str<'a>(s: &'a str) -> (r: &'a str)
    ensures
        r@ == trimmed(s@),
{
    let n = s.unicode_len();
    let mut a: usize = 0;
    while a < n && is_space(s.get_char(a))
        invariant
            a <= n,
            n == s@.len(),
            forall|j: int| 0 <= j < a ==> is_space_char(s@[j]),
        decreases n - a,
    {
        a = a + 1;
    }
    proof {
        lemma_trim_start_skip(s@, a as int);
        if a < n {
            assert(s@.skip(a as int)[0] == s@[a as int]);
            assert(trim_start_seq(s@.skip(a as int)) == s@.skip(a as int));
        } else {
            assert(s@.skip(a as int) =~= Seq::<char>::empty());
            assert(trim_start_seq(s@) =~= s@.skip(a as int));
        }
    }
    // now trim_start_seq(s@) == s@.skip(a)
    let mut b: usize = n;
    while b > a && is_space(s.get_char(b - 1))
        invariant
            a <= b <= n,
            n == s@.len(),
            forall|j: int| b <= j < n ==> is_space_char(s@[j]),
        decreases b,
    {
        b = b - 1;
    }
    proof {
        let tail = s@.skip(a as int);
        lemma_trim_end_take(tail, b - a);
        assert(tail.take(b - a) =~= s@.subrange(a as int, b as int));
        if b > a {
            assert(s@.subrange(a as int, b as int).last() == s@[b - 1]);
            assert(trim_end_seq(s@.subrange(a as int, b as int)) == s@.subrange(
                a as int,
                b as int,
            ));
        } else {
            assert(s@.subrange(a as int, b as int) =~= Seq::<char>::empty());
            assert(trim_end_seq(tail) =~= s@.subrange(a as int, b as int));
        }
    }
    s.substring_char(a, b)
}

/// Index of the first newline in `s`, or `s.len()` if there is none.
pub open spec fn first_newline(s: Seq<char>) -> int
    decreases s.len(),
{
    if s.len() == 0 {
        0
    } else if s[0] == '\n' {
        0
    } else {
        1 + first_newline(s.drop_first())
    }
}

pub proof fn lemma_first_newline(s: Seq<char>)
    ensures
        0 <= first_newline(s) <= s.len(),
        forall|j: int| 0 <= j < first_newline(s) ==> s[j] != '\n',
        first_newline(s) < s.len() ==> s[first_newline(s)] == '\n',
    decreases s.len(),
{
    if s.len() > 0 && s[0] != '\n' {
        lemma_first_newline(s.drop_first());
        assert forall|j: int| 0 <= j < first_newline(s) implies s[j] != '\n' by {
            if j > 0 {
                assert(s.drop_first()[j - 1] != '\n');
            }
        }
    }
}

pub proof fn lemma_first_newline_at(s: Seq<char>, i: int)
    requires
        0 <= i <= s.len(),
        forall|j: int| 0 <= j < i ==> s[j] != '\n',
        i < s.len() ==> s[i] == '\n',
    ensures
        first_newline(s) == i,
    decreases i,
{
    if i > 0 {
        lemma_first_newline_at(s.drop_first(), i - 1);
    }
}

/// The pieces of `s` cut at each newline, the final piece dropped when
/// empty; this is how `str::lines` splits, up to the carriage returns
/// that the subsequent trim removes anyway.
pub open spec fn split_lines(s: Seq<char>) -> Seq<Seq<char>>
    decreases s.len(),
    via split_lines_decreases
{
    if s.len() == 0 {
        Seq::empty()
    } else {
        let i = first_newline(s);
        if i == s.len() {
            seq![s]
        } else {
            seq![s.take(i)] + split_lines(s.skip(i + 1))
        }
    }
}

#[via_fn]
proof fn split_lines_decreases(s: Seq<char>) {
    lemma_first_newline(s);
}

/// Each line of `s`, trimmed of surrounding whitespace.
pub open spec fn trimmed_lines(s: Seq<char>) -> Seq<Seq<char>> {
    split_lines(s).map_values(|l: Seq<char>| trimmed(l))
}

/// Splits `s` at newlines and trims each line.
pub fn split_trimmed_lines(s: &str) -> (r: Vec<String>)
    ensures
        r@.map_values(|l: String| l@) == trimmed_lines(s@),
{
    let n = s.unicode_len();
    let mut out: Vec<String> = Vec::new();
    let mut start: usize = 0;
    let mut i: usize = 0;
    proof {
        assert(out@.map_values(|l: String| l@) =~= Seq::<Seq<char>>::empty());
        assert(s@.skip(0) =~= s@);
        assert(trimmed_lines(s@) =~= Seq::<Seq<char>>::empty() + split_lines(s@).map_values(
            |l: Seq<char>| trimmed(l),
        ));
    }
    while i < n
        invariant
            start <= i <= n,
            n == s@.len(),
            forall|j: int| start <= j < i ==> s@[j] != '\n',
            trimmed_lines(s@) =~= out@.map_values(|l: String| l@) + split_lines(
                s@.skip(start as int),
            ).map_values(|l: Seq<char>| trimmed(l)),
        decreases n - i,
    {
        if s.get_char(i) == '\n' {
            let piece = trim_str(s.substring_char(start, i));
            let ghost old_out = out@;
            out.push(String::from_str(piece));
            proof {
                let tail = s@.skip(start as int);
                lemma_first_newline_at(tail, i - start);
                assert(tail.len() > 0);
                assert(first_newline(tail) == i - start);
                assert(i - start < tail.len());
                assert(tail.take(i - start) =~= s@.subrange(start as int, i as int));
                assert(tail.skip(i - start + 1) =~= s@.skip(i + 1));
                assert(split_lines(tail) == seq![tail.take(i - start)] + split_lines(
                    s@.skip(i + 1),
                ));
                assert(out@.map_values(|l: String| l@) =~= old_out.map_values(|l: String| l@)
                    + seq![trimmed(s@.subrange(start as int, i as int))]);
                assert((seq![tail.take(i - start)] + split_lines(s@.skip(i + 1))).map_values(
                    |l: Seq<char>| trimmed(l),
                ) =~= seq![trimmed(tail.take(i - start))] + split_lines(s@.skip(i + 1)).map_values(
                    |l: Seq<char>| trimmed(l),
                ));
            }
            start = i + 1;
        }
        i = i + 1;
    }
    if start < n {
        let piece = trim_str(s.substring_char(start, n));
        let ghost old_out = out@;
        out.push(String::from_str(piece));
        proof {
            let tail = s@.skip(start as int);
            lemma_first_newline_at(tail, n - start);
            assert(tail.len() > 0);
            assert(first_newline(tail) == tail.len());
            assert(split_lines(tail) == seq![tail]);
            assert(tail =~= s@.subrange(start as int, n as int));
            assert(out@.map_values(|l: String| l@) =~= old_out.map_values(|l: String| l@)
                + seq![trimmed(tail)]);
            assert(seq![tail].map_values(|l: Seq<char>| trimmed(l)) =~= seq![trimmed(tail)]);
        }
    } else {
        proof {
            assert(s@.skip(start as int) =~= Seq::<char>::empty());
            assert(split_lines(s@.skip(start as int)) =~= Seq::<Seq<char>>::empty());
        }
    }
    proof {
        assert(out@.map_values(|l: String| l@) =~= trimmed_lines(s@)) by {
            assert(out@.map_values(|l: String| l@) + Seq::<Seq<char>>::empty().map_values(
                |l: Seq<char>| trimmed(l),
            ) =~= out@.map_values(|l: String| l@));
        }
    }
    out
}

/// Lexicographic order on character sequences, by code point.
pub open spec fn lex_le(a: Seq<char>, b: Seq<char>) -> bool
    decreases a.len(),
{
    if a.len() == 0 {
        true
    } else if b.len() == 0 {
        false
    } else if (a[0] as u32) < (b[0] as u32) {
        true
    } else if (a[0] as u32) > (b[0] as u32) {
        false
    } else {
        lex_le(a.drop_first(), b.drop_first())
    }
}

/// Decides `lex_le`.
pub fn lex_le_str(a: &str, b: &str) -> (r: bool)
    ensures
        r == lex_le(a@, b@),
{
    let an = a.unicode_len();
    let bn = b.unicode_len();
    let mut i: usize = 0;
    proof {
        assert(a@.skip(0) =~= a@);
        assert(b@.skip(0) =~= b@);
    }
    while i < an && i < bn
        invariant
            i <= an,
            i <= bn,
            an == a@.len(),
            bn == b@.len(),
            lex_le(a@, b@) == lex_le(a@.skip(i as int), b@.skip(i as int)),
        decreases an - i,
    {
        let ca = a.get_char(i) as u32;
        let cb = b.get_char(i) as u32;
        proof {
            let ta = a@.skip(i as int);
            let tb = b@.skip(i as int);
            assert(ta[0] == a@[i as int] && tb[0] == b@[i as int]);
            if ca == cb {
                assert(ta.drop_first() =~= a@.skip(i + 1));
                assert(tb.drop_first() =~= b@.skip(i + 1));
            }
        }
        if ca < cb {
            return true;
        }
        if ca > cb {
            return false;
        }
        i = i + 1;
    }
    proof {
        if i >= an {
            assert(a@.skip(i as int) =~= Seq::<char>::empty());
        } else {
            assert(b@.skip(i as int) =~= Seq::<char>::empty());
            assert(a@.skip(i as int).len() > 0);
        }
    }
    an <= bn
}

/// `c` is an ASCII decimal digit.
pub open spec fn is_digit_char(c: char) -> bool {
    48 <= (c as u32) <= 57
}

/// The numeric value of a sequence of decimal digits.
pub open spec fn digits_value(s: Seq<char>) -> int
    decreases s.len(),
{
    if s.len() == 0 {
        0
    } else {
        digits_value(s.drop_last()) * 10 + ((s.last() as u32) - 48)
    }
}

/// Every character of `s` is a decimal digit.
pub open spec fn all_digits(s: Seq<char>) -> bool {
    forall|j: int| 0 <= j < s.len() ==> is_digit_char(s[j])
}

/// The digits of `s`, after an optional leading `+` sign.
pub open spec fn sign_stripped(s: Seq<char>) -> Seq<char> {
    if s.len() > 0 && s[0] == '+' {
        s.drop_first()
    } else {
        s
    }
}

/// What `str::parse::<u64>` returns: an optional leading `+`, then one
/// or more decimal digits whose value fits in a `u64`; anything else is
/// rejected.
pub open spec fn parse_u64_spec(s: Seq<char>) -> Option<u64> {
    if sign_stripped(s).len() > 0 && all_digits(sign_stripped(s)) && digits_value(sign_stripped(s))
        <= u64::MAX {
        Some(digits_value(sign_stripped(s)) as u64)
    } else {
        None
    }
}

proof fn lemma_digits_value_overflow(s: Seq<char>, i: int)
    requires
        0 <= i <= s.len(),
        digits_value(s.take(i)) > u64::MAX,
    ensures
        digits_value(s) > u64::MAX,
    decreases s.len() - i,
{
    if i < s.len() {
        assert(s.take(i + 1).drop_last() =~= s.take(i));
        assert(digits_value(s.take(i + 1)) == digits_value(s.take(i)) * 10 + ((s.take(
            i + 1,
        ).last() as u32) - 48));
        assert(digits_value(s.take(i)) * 10 >= (u64::MAX + 1) * 10);
        lemma_digits_value_overflow(s, i + 1);
    } else {
        assert(s.take(i) =~= s);
    }
}

/// Parses the digits of `s` as `str::parse::<u64>` would.
pub fn parse_u64_str(s: &str) -> (r: Option<u64>)
    ensures
        r == parse_u64_spec(s@),
{
    let n = s.unicode_len();
    let start: usize = if n > 0 && s.get_char(0) == '+' {
        1
    } else {
        0
    };
    let ghost body = sign_stripped(s@);
    proof {
        assert(body =~= s@.subrange(start as int, n as int));
    }
    if start == n {
        return None;
    }
    let mut v: u64 = 0;
    let mut i: usize = start;
    proof {
        assert(body.take(0) =~= Seq::<char>::empty());
    }
    while i < n
        invariant
            start <= i <= n,
            n == s@.len(),
            body == s@.subrange(start as int, n as int),
            body == sign_stripped(s@),
            forall|j: int| 0 <= j < i - start ==> is_digit_char(body[j]),
            v == digits_value(body.take(i - start)),
        decreases n - i,
    {
        let c = s.get_char(i);
        let d = c as u32;
        proof {
            assert(body[i - start] == s@[i as int]);
        }
        if d < 48 || d > 57 {
            proof {
                assert(!is_digit_char(body[i - start]));
                assert(!all_digits(body));
                assert(parse_u64_spec(s@) is None);
            }
            return None;
        }
        let dd: u64 = (d - 48) as u64;
        proof {
            assert(body.take(i - start + 1).drop_last() =~= body.take(i - start));
            assert(body.take(i - start + 1).last() == body[i - start]);
        }
        let limit: u64 = u64::MAX / 10;
        if v > limit || (v == limit && dd > 5) {
            proof {
                assert(digits_value(body.take(i - start + 1)) == v * 10 + dd);
                assert(digits_value(body.take(i - start + 1)) > u64::MAX);
                lemma_digits_value_overflow(body, i - start + 1);
                assert(digits_value(body) > u64::MAX);
                assert(parse_u64_spec(s@) is None);
            }
            return None;
        }
        assert(v * 10 + dd <= u64::MAX);
        v = v * 10 + dd;
        i = i + 1;
    }
    proof {
        assert(body.take(n - start) =~= body);
    }
    Some(v)
}

/// `s` with every repetition of the prefix `p` removed from its front,
/// as `str::trim_start_matches` strips it.
pub open spec fn strip_prefix_all(s: Seq<char>, p: Seq<char>) -> Seq<char>
    decreases s.len(),
{
    if p.len() > 0 && has_prefix_seq(s, p) {
        strip_prefix_all(s.skip(p.len() as int), p)
    } else {
        s
    }
}

/// Removes every leading repetition of `p` from `s`.
pub fn strip_prefix_all_str<'a>(s: &'a str, p: &str) -> (r: &'a str)
    ensures
        r@ == strip_prefix_all(s@, p@),
{
    let n = s.unicode_len();
    let pn = p.unicode_len();
    if pn == 0 {
        return s;
    }
    let mut i: usize = 0;
    let mut cur: &str = s;
    proof {
        assert(s@.skip(0) =~= s@);
    }
    loop
        invariant
            i <= n,
            n == s@.len(),
            pn == p@.len(),
            pn > 0,
            cur@ == s@.skip(i as int),
            strip_prefix_all(s@, p@) == strip_prefix_all(cur@, p@),
        decreases n - i,
    {
        if has_prefix(cur, p) {
            proof {
                assert(cur@.skip(pn as int) =~= s@.skip(i + pn));
            }
            cur = cur.substring_char(pn, cur.unicode_len());
            proof {
                assert(cur@ =~= s@.skip(i + pn));
            }
            i = i + pn;
        } else {
            return cur;
        }
    }
}

/// `s` with every backslash replaced by a forward slash.
pub open spec fn normalized_slashes(s: Seq<char>) -> Seq<char> {
    s.map_values(|c: char| if c == '\\' { '/' } else { c })
}

/// Replaces every backslash in `s` with a forward slash.
pub fn normalize_slashes(s: &str) -> (r: String)
    ensures
        r@ == normalized_slashes(s@),
{
    let n = s.unicode_len();
    let mut out = String::new();
    let mut i: usize = 0;
    proof {
        reveal_strlit("/");
        assert(out@ =~= normalized_slashes(s@.take(0)));
    }
    while i < n
        invariant
            i <= n,
            n == s@.len(),
            out@ == normalized_slashes(s@.take(i as int)),
        decreases n - i,
    {
        if s.get_char(i) == '\\' {
            out.append("/");
            proof {
                reveal_strlit("/");
                assert(out@ =~= normalized_slashes(s@.take(i + 1)));
            }
        } else {
            let piece = s.substring_char(i, i + 1);
            out.append(piece);
            proof {
                assert(piece@[0] == s@[i as int]);
                assert(out@ =~= normalized_slashes(s@.take(i + 1)));
            }
        }
        i = i + 1;
    }
    proof {
        assert(s@.take(n as int) =~= s@);
    }
    out
}

} // verus!
