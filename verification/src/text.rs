//! Character-level text handling: escaping of Discord spoiler bars in
//! user names, detection of the "929" token, decimal rendering of numbers
//! and parsing of the leading position number of a leaderboard page.
use vstd::prelude::*;

verus! {

// ---------------------------------------------------------------------------
// Specifications
// ---------------------------------------------------------------------------

/// The escaped form of a spoiler marker `||`, written `\|\|`.
pub open spec fn escaped_bars() -> Seq<char> {
    seq!['\\', '|', '\\', '|']
}

/// `s` with every occurrence of `||` replaced by `\|\|`, scanning from the
/// left and never matching inside text that was already replaced (the
/// behaviour of `str::replace`).
pub open spec fn sanitized(s: Seq<char>) -> Seq<char>
    decreases s.len(),
{
    if s.len() == 0 {
        Seq::empty()
    } else if s.len() >= 2 && s[0] == '|' && s[1] == '|' {
        escaped_bars() + sanitized(s.skip(2))
    } else {
        seq![s[0]] + sanitized(s.skip(1))
    }
}

/// `pat` occurs in `s` as a contiguous run of characters.
pub open spec fn contains_seq(s: Seq<char>, pat: Seq<char>) -> bool {
    exists|i: int| 0 <= i && i + pat.len() <= s.len() && #[trigger] s.subrange(i, i + pat.len()) == pat
}

/// The token that marks a participation.
pub open spec fn token_929() -> Seq<char> {
    seq!['9', '2', '9']
}

/// The ASCII character of a decimal digit.
pub open spec fn digit_char(d: nat) -> char
    recommends d < 10,
{
    seq!['0', '1', '2', '3', '4', '5', '6', '7', '8', '9'][d as int]
}

/// The decimal rendering of `n`, most significant digit first, without
/// leading zeros (the `Display` form of an unsigned integer).
pub open spec fn decimal(n: nat) -> Seq<char>
    decreases n,
{
    if n < 10 {
        seq![digit_char(n)]
    } else {
        decimal(n / 10).push(digit_char(n % 10))
    }
}

/// `c` is one of the ASCII digits `0` to `9`.
pub open spec fn is_digit(c: char) -> bool {
    '0' <= c && c <= '9'
}

/// Every character of `s` is an ASCII digit.
pub open spec fn all_digits(s: Seq<char>) -> bool {
    forall|i: int| 0 <= i < s.len() ==> is_digit(#[trigger] s[i])
}

/// The number written by the digits `s` (most significant first).
pub open spec fn digits_value(s: Seq<char>) -> nat
    decreases s.len(),
{
    if s.len() == 0 {
        0
    } else {
        digits_value(s.drop_last()) * 10 + ((s.last() as int) - ('0' as int)) as nat
    }
}

/// What `str::parse::<usize>` returns for `s`: an optional `+` sign
/// followed by at least one ASCII digit, whose value fits in a `usize`.
pub open spec fn parsed_usize(s: Seq<char>) -> Option<usize> {
    let d = if s.len() > 0 && s[0] == '+' { s.drop_first() } else { s };
    if d.len() > 0 && all_digits(d) && digits_value(d) <= usize::MAX {
        Some(digits_value(d) as usize)
    } else {
        None
    }
}

/// The text before the first `.` of `s`, if `s` holds a `.`
/// (the first half of `str::split_once(".")`).
pub open spec fn before_first_dot(s: Seq<char>) -> Option<Seq<char>>
    decreases s.len(),
{
    if s.len() == 0 {
        None
    } else if s[0] == '.' {
        Some(Seq::empty())
    } else {
        match before_first_dot(s.drop_first()) {
            Some(p) => Some(seq![s[0]] + p),
            None => None,
        }
    }
}

// ---------------------------------------------------------------------------
// Lemmas
// ---------------------------------------------------------------------------

proof fn lemma_sanitized_step(s: Seq<char>, i: int)
    requires
        0 <= i < s.len(),
    ensures
        sanitized(s.skip(i)) == if i + 1 < s.len() && s[i] == '|' && s[i + 1] == '|' {
            escaped_bars() + sanitized(s.skip(i + 2))
        } else {
            seq![s[i]] + sanitized(s.skip(i + 1))
        },
{
    let t = s.skip(i);
    assert(t.skip(1) =~= s.skip(i + 1));
    if i + 1 < s.len() {
        assert(t.skip(2) =~= s.skip(i + 2));
    }
}

/// The spoiler marker `||`.
pub open spec fn bars() -> Seq<char> {
    seq!['|', '|']
}

/// Text without a spoiler marker is left as it is by the escaping.
pub proof fn lemma_sanitized_identity(s: Seq<char>)
    requires
        !contains_seq(s, bars()),
    ensures
        sanitized(s) == s,
    decreases s.len(),
{
    if s.len() > 0 {
        assert(!(s.len() >= 2 && s[0] == '|' && s[1] == '|')) by {
            if s.len() >= 2 && s[0] == '|' && s[1] == '|' {
                assert(s.subrange(0int, 0int + bars().len()) =~= bars());
            }
        }
        let t = s.skip(1);
        assert forall|i: int| 0 <= i && i + bars().len() <= t.len() implies #[trigger] t.subrange(
            i,
            i + bars().len(),
        ) != bars() by {
            assert(t.subrange(i, i + bars().len()) =~= s.subrange(i + 1, (i + 1) + bars().len()));
        }
        lemma_sanitized_identity(t);
        assert(seq![s[0]] + t =~= s);
    }
}

/// `s` with every `\|\|` replaced by `||`, scanning from the left (what
/// `str::replace("\\|\\|", "||")` returns): the undoing of the escaping.
pub open spec fn unescaped(s: Seq<char>) -> Seq<char>
    decreases s.len(),
{
    if s.len() == 0 {
        Seq::empty()
    } else if s.len() >= 4 && s.take(4) == escaped_bars() {
        bars() + unescaped(s.skip(4))
    } else {
        seq![s[0]] + unescaped(s.skip(1))
    }
}

/// Escaping a name and undoing the escaping gives the name back, for names
/// without a backslash.
pub proof fn lemma_unescape_sanitized(s: Seq<char>)
    requires
        forall|i: int| 0 <= i < s.len() ==> s[i] != '\\',
    ensures
        unescaped(sanitized(s)) == s,
    decreases s.len(),
{
    if s.len() > 0 {
        if s.len() >= 2 && s[0] == '|' && s[1] == '|' {
            let r = s.skip(2);
            assert forall|i: int| 0 <= i < r.len() implies r[i] != '\\' by {
                assert(r[i] == s[i + 2]);
            }
            lemma_unescape_sanitized(r);
            let t = escaped_bars() + sanitized(r);
            assert(t.take(4) =~= escaped_bars());
            assert(t.skip(4) =~= sanitized(r));
            assert(bars() + r =~= s);
        } else {
            let r = s.skip(1);
            assert forall|i: int| 0 <= i < r.len() implies r[i] != '\\' by {
                assert(r[i] == s[i + 1]);
            }
            lemma_unescape_sanitized(r);
            let t = seq![s[0]] + sanitized(r);
            assert(t[0] == s[0]);
            assert(t.len() >= 4 ==> t.take(4)[0] == s[0]);
            assert(escaped_bars()[0] == '\\');
            assert(t.skip(1) =~= sanitized(r));
            assert(seq![s[0]] + r =~= s);
        }
    }
}

proof fn lemma_before_first_dot(s: Seq<char>, k: int)
    requires
        0 <= k <= s.len(),
        forall|j: int| 0 <= j < k ==> s[j] != '.',
    ensures
        k < s.len() && s[k] == '.' ==> before_first_dot(s) == Some(s.take(k)),
        k == s.len() ==> before_first_dot(s) is None,
    decreases k,
{
    if k > 0 {
        let t = s.drop_first();
        assert forall|j: int| 0 <= j < k - 1 implies t[j] != '.' by {
            assert(t[j] == s[j + 1]);
        }
        lemma_before_first_dot(t, k - 1);
        if k < s.len() && s[k] == '.' {
            assert(seq![s[0]] + t.take(k - 1) =~= s.take(k));
        }
    }
}

/// Each digit has its own character, `0` to `9` in order.
pub proof fn lemma_digit_char(d: nat)
    requires
        d < 10,
    ensures
        digit_char(d) as int == '0' as int + d,
        is_digit(digit_char(d)),
{
    let t = seq!['0', '1', '2', '3', '4', '5', '6', '7', '8', '9'];
    assert(digit_char(d) == t[d as int]);
    if d == 0 {
        assert(t[0] == '0');
    } else if d == 1 {
        assert(t[1] == '1');
    } else if d == 2 {
        assert(t[2] == '2');
    } else if d == 3 {
        assert(t[3] == '3');
    } else if d == 4 {
        assert(t[4] == '4');
    } else if d == 5 {
        assert(t[5] == '5');
    } else if d == 6 {
        assert(t[6] == '6');
    } else if d == 7 {
        assert(t[7] == '7');
    } else if d == 8 {
        assert(t[8] == '8');
    } else {
        assert(t[9] == '9');
    }
}

/// The decimal text of `n` is made of digits only and reads back as `n`.
pub proof fn lemma_decimal_digits(n: nat)
    ensures
        decimal(n).len() > 0,
        all_digits(decimal(n)),
        digits_value(decimal(n)) == n,
    decreases n,
{
    if n < 10 {
        lemma_digit_char(n);
        let s = decimal(n);
        assert(s.drop_last() =~= Seq::<char>::empty());
        assert(digits_value(s.drop_last()) == 0);
        assert(s.last() == digit_char(n));
    } else {
        lemma_digit_char(n % 10);
        lemma_decimal_digits(n / 10);
        let d = decimal(n / 10);
        let s = decimal(n);
        assert(s.drop_last() =~= d);
        assert(s.last() == digit_char(n % 10));
        assert(digits_value(s) == digits_value(d) * 10 + (n % 10));
        assert((n / 10) * 10 + n % 10 == n);
        assert forall|i: int| 0 <= i < s.len() implies is_digit(#[trigger] s[i]) by {
            if i < d.len() {
                assert(s[i] == d[i]);
            }
        }
    }
}

/// The decimal text of a number has no leading zero (unless it is `0`)
/// and parses back to the number.
pub proof fn lemma_decimal_round_trip(n: nat)
    ensures
        n > 0 ==> decimal(n)[0] != '0',
        n == 0 ==> decimal(n) == seq!['0'],
        n <= usize::MAX ==> parsed_usize(decimal(n)) == Some(n as usize),
    decreases n,
{
    lemma_decimal_digits(n);
    if n < 10 {
        lemma_digit_char(n);
        if n == 0 {
            assert(decimal(n) =~= seq!['0']);
        }
    } else {
        lemma_decimal_round_trip(n / 10);
        assert(decimal(n)[0] == decimal(n / 10)[0]);
    }
    let d = decimal(n);
    assert(is_digit(d[0]));
    assert(d[0] != '+');
}

/// A text holds `929` exactly when three of its characters in a row are
/// `9`, `2` and `9`.
pub proof fn lemma_token_929(s: Seq<char>)
    ensures
        contains_seq(s, token_929()) <==> exists|i: int|
            0 <= i && i + 3 <= s.len() && #[trigger] s[i] == '9' && s[i + 1] == '2' && s[i + 2]
                == '9',
{
    if contains_seq(s, token_929()) {
        let i = choose|i: int|
            0 <= i && i + token_929().len() <= s.len() && #[trigger] s.subrange(
                i,
                i + token_929().len(),
            ) == token_929();
        assert(s.subrange(i, i + 3)[0] == s[i]);
        assert(s.subrange(i, i + 3)[1] == s[i + 1]);
        assert(s.subrange(i, i + 3)[2] == s[i + 2]);
        assert(s[i] == '9');
    }
    if exists|i: int| 0 <= i && i + 3 <= s.len() && #[trigger] s[i] == '9' && s[i + 1] == '2' && s[i
        + 2] == '9' {
        let i = choose|i: int|
            0 <= i && i + 3 <= s.len() && #[trigger] s[i] == '9' && s[i + 1] == '2' && s[i + 2]
                == '9';
        assert(s.subrange(i, i + 3) =~= token_929());
    }
}

// ---------------------------------------------------------------------------
// Trusted wrappers of std
// ---------------------------------------------------------------------------

/// Appends one character to a string (`String::push`); the string gains
/// exactly that character at its end.
#[verifier::external_body]
pub(crate) fn push_char(s: &mut String, c: char)
    ensures
        final(s)@ == old(s)@.push(c),
{
    s.push(c);
}

// ---------------------------------------------------------------------------
// Executable functions
// ---------------------------------------------------------------------------

/// The ASCII character of the digit `d`.
fn digit_to_char(d: u64) -> (c: char)
    requires
        d < 10,
    ensures
        c == digit_char(d as nat),
{
    let ghost t = seq!['0', '1', '2', '3', '4', '5', '6', '7', '8', '9'];
    assert(digit_char(d as nat) == t[d as int]);
    if d == 0 {
        '0'
    } else if d == 1 {
        '1'
    } else if d == 2 {
        '2'
    } else if d == 3 {
        '3'
    } else if d == 4 {
        '4'
    } else if d == 5 {
        '5'
    } else if d == 6 {
        '6'
    } else if d == 7 {
        '7'
    } else if d == 8 {
        '8'
    } else {
        '9'
    }
}

/// Appends the decimal text of `n`.
fn append_decimal(out: &mut String, n: u64)
    ensures
        final(out)@ == old(out)@ + decimal(n as nat),
    decreases n,
{
    if n >= 10 {
        append_decimal(out, n / 10);
    }
    let ghost mid = out@;
    push_char(out, digit_to_char(n % 10));
    assert(out@ =~= old(out)@ + decimal(n as nat));
}

/// The decimal text of an unsigned integer: its digits, most significant
/// first, without sign or leading zeros.
pub fn u64_to_decimal(n: u64) -> (r: String)
    ensures
        r@ == decimal(n as nat),
{
    let mut out = String::new();
    append_decimal(&mut out, n);
    assert(Seq::<char>::empty() + decimal(n as nat) =~= decimal(n as nat));
    out
}

/// The characters of `s`, in order.
pub fn chars_of(s: &str) -> (v: Vec<char>)
    ensures
        v@ == s@,
{
    let mut v: Vec<char> = Vec::new();
    for c in it: s.chars()
        invariant
            v@ == it.seq().take(it.index() as int),
    {
        v.push(c);
    }
    v
}

/// Escapes Discord spoiler markers in a user name: every `||` becomes
/// `\|\|`, so that a name cannot hide the text around it.
pub fn sanitize_username(name: String) -> (r: String)
    ensures
        r@ == sanitized(name@),
{
    let cs = chars_of(name.as_str());
    let n = cs.len();
    let mut out = String::new();
    let mut i: usize = 0;
    assert(cs@.skip(0) =~= cs@);
    while i < n
        invariant
            n == cs@.len(),
            cs@ == name@,
            i <= n,
            sanitized(cs@) == out@ + sanitized(cs@.skip(i as int)),
        decreases n - i,
    {
        proof {
            lemma_sanitized_step(cs@, i as int);
        }
        if cs[i] == '|' && i + 1 < n && cs[i + 1] == '|' {
            let ghost before = out@;
            out.append("\\|\\|");
            proof {
                reveal_strlit("\\|\\|");
                assert(out@ =~= before + escaped_bars());
                assert(before + (escaped_bars() + sanitized(cs@.skip(i + 2))) =~= out@ + sanitized(
                    cs@.skip(i + 2),
                ));
            }
            i = i + 2;
        } else {
            let ghost before = out@;
            push_char(&mut out, cs[i]);
            proof {
                assert(before + (seq![cs@[i as int]] + sanitized(cs@.skip(i + 1))) =~= out@
                    + sanitized(cs@.skip(i + 1)));
            }
            i = i + 1;
        }
    }
    assert(cs@.skip(n as int) =~= Seq::<char>::empty());
    assert(out@ + Seq::<char>::empty() =~= out@);
    out
}

/// Whether `text` holds the token `929`.
pub fn mentions_929(text: &str) -> (r: bool)
    ensures
        r == contains_seq(text@, token_929()),
{
    let cs = chars_of(text);
    let n = cs.len();
    let mut i: usize = 0;
    while i < n && n - i >= 3
        invariant
            n == cs@.len(),
            cs@ == text@,
            forall|j: int| 0 <= j < i && j + 3 <= n ==> #[trigger] cs@.subrange(j, j + 3) != token_929(),
        decreases n - i,
    {
        if cs[i] == '9' && cs[i + 1] == '2' && cs[i + 2] == '9' {
            assert(cs@.subrange(i as int, i + 3) =~= token_929());
            return true;
        }
        assert(cs@.subrange(i as int, i + 3)[0] == cs@[i as int]);
        assert(cs@.subrange(i as int, i + 3)[1] == cs@[i + 1]);
        assert(cs@.subrange(i as int, i + 3)[2] == cs@[i + 2]);
        i = i + 1;
    }
    assert forall|j: int| 0 <= j && j + 3 <= cs@.len() implies #[trigger] cs@.subrange(j, j + 3)
        != token_929() by {}
    false
}

/// Parses `text` as `str::parse::<usize>` does.
pub fn parse_usize(text: &str) -> (r: Option<usize>)
    ensures
        r == parsed_usize(text@),
{
    let cs = chars_of(text);
    assert(cs@.take(cs@.len() as int) =~= cs@);
    parse_usize_prefix(&cs, cs.len())
}

/// Parses the first `hi` characters of `cs` as `str::parse::<usize>` does.
fn parse_usize_prefix(cs: &Vec<char>, hi: usize) -> (r: Option<usize>)
    requires
        hi <= cs@.len(),
    ensures
        r == parsed_usize(cs@.take(hi as int)),
{
    let ghost s = cs@.take(hi as int);
    let n = hi;
    let start: usize = if n > 0 && cs[0] == '+' { 1 } else { 0 };
    let ghost d = if s.len() > 0 && s[0] == '+' { s.drop_first() } else { s };
    assert(n > 0 ==> s[0] == cs@[0]);
    assert(d =~= s.skip(start as int));
    if start == n {
        return None;
    }
    let mut value: usize = 0;
    let mut overflow = false;
    let mut i: usize = start;
    assert(s.subrange(start as int, start as int) =~= Seq::<char>::empty());
    while i < n
        invariant
            start <= i <= n,
            n == s.len(),
            hi <= cs@.len(),
            s == cs@.take(hi as int),
            d =~= s.skip(start as int),
            d == (if s.len() > 0 && s[0] == '+' { s.drop_first() } else { s }),
            all_digits(s.subrange(start as int, i as int)),
            !overflow ==> value == digits_value(s.subrange(start as int, i as int)),
            overflow ==> digits_value(s.subrange(start as int, i as int)) > usize::MAX,
        decreases n - i,
    {
        let c = cs[i];
        assert(s[i as int] == c);
        if !('0' <= c && c <= '9') {
            assert(d[i - start] == c);
            assert(!is_digit(d[i - start]));
            assert(!all_digits(d));
            return None;
        }
        let ghost pre = s.subrange(start as int, i as int);
        let ghost post = s.subrange(start as int, i + 1);
        assert(post.drop_last() =~= pre);
        assert(post.last() == c);
        let dv: usize = (c as u32 - '0' as u32) as usize;
        assert(digits_value(post) == digits_value(pre) * 10 + dv);
        if !overflow {
            if value > (usize::MAX - dv) / 10 {
                overflow = true;
            } else {
                value = value * 10 + dv;
            }
        }
        assert forall|j: int| 0 <= j < post.len() implies is_digit(#[trigger] post[j]) by {
            if j < pre.len() {
                assert(post[j] == pre[j]);
            }
        }
        i = i + 1;
    }
    assert(s.subrange(start as int, n as int) =~= d);
    if overflow {
        None
    } else {
        Some(value)
    }
}

/// The position number that a leaderboard page starts with: the text of
/// `description` before its first `.`, parsed as a `usize`. `None` where
/// there is no `.` or that text is not a number.
pub fn first_position(description: &str) -> (r: Option<usize>)
    ensures
        r == match before_first_dot(description@) {
            Some(p) => parsed_usize(p),
            None => None,
        },
{
    let cs = chars_of(description);
    let n = cs.len();
    let mut k: usize = 0;
    while k < n && cs[k] != '.'
        invariant
            n == cs@.len(),
            cs@ == description@,
            k <= n,
            forall|j: int| 0 <= j < k ==> cs@[j] != '.',
        decreases n - k,
    {
        k = k + 1;
    }
    proof {
        lemma_before_first_dot(cs@, k as int);
    }
    if k == n {
        return None;
    }
    parse_usize_prefix(&cs, k)
}

} // verus!
