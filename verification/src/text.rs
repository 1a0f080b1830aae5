//! Strings as sequences of characters: taking them apart, putting them together,
//! decimal numbers and the escapes of a prompt.
use vstd::prelude::*;

verus! {

/// `String::push` appends the given character and changes nothing else.
pub assume_specification[ String::push ](s: &mut String, c: char)
    ensures
        final(s)@ == old(s)@.push(c),
;

/// The characters of each string.
pub open spec fn views(v: Seq<String>) -> Seq<Seq<char>> {
    Seq::new(v.len(), |i: int| v[i]@)
}

/// The characters of `s`, in order.
pub fn chars_of(s: &str) -> (v: Vec<char>)
    ensures
        v@ == s@,
{
    let mut v: Vec<char> = Vec::new();
    for c in it: s.chars()
        invariant
            v@ == it.seq().take(it.index() as int),
    {
        v.push(c);
    }
    v
}

/// The string of the characters `v`.
pub fn string_of(v: &[char]) -> (s: String)
    ensures
        s@ == v@,
{
    let mut s = String::new();
    let mut i: usize = 0;
    while i < v.len()
        invariant
            i <= v.len(),
            s@ == v@.take(i as int),
        decreases v.len() - i,
    {
        s.push(v[i]);
        i += 1;
    }
    s
}


/// Whether two strings hold the same characters.
pub fn same_text(a: &str, b: &str) -> (r: bool)
    ensures
        r == (a@ == b@),
{
    let x = chars_of(a);
    let y = chars_of(b);
    if x.len() != y.len() {
        return false;
    }
    let mut i: usize = 0;
    while i < x.len()
        invariant
            x.len() == y.len(),
            i <= x.len(),
            x@ == a@,
            y@ == b@,
            forall|j: int| 0 <= j < i ==> x@[j] == y@[j],
        decreases x.len() - i,
    {
        if x[i] != y[i] {
            assert(a@[i as int] != b@[i as int]);
            return false;
        }
        i += 1;
    }
    assert(a@ =~= b@);
    true
}

/// `c` is a decimal digit.
pub open spec fn is_digit(c: char) -> bool {
    '0' <= c <= '9'
}

/// What the digit `c` is worth.
pub open spec fn digit_value(c: char) -> nat {
    (c as nat - '0' as nat) as nat
}

/// The digit that is worth `d`.
pub open spec fn digit_char(d: nat) -> char {
    (('0' as nat + d) as u8) as char
}

/// The number that a row of digits denotes.
pub open spec fn digits_value(s: Seq<char>) -> nat
    decreases s.len(),
{
    if s.len() == 0 {
        0
    } else {
        10 * digits_value(s.drop_last()) + digit_value(s.last())
    }
}

/// Every character of `s` is a digit.
pub open spec fn all_digits(s: Seq<char>) -> bool {
    forall|i: int| 0 <= i < s.len() ==> is_digit(#[trigger] s[i])
}

/// `n` in decimal, without leading zeros.
pub open spec fn decimal(n: nat) -> Seq<char>
    decreases n,
{
    if n < 10 {
        seq![digit_char(n)]
    } else {
        decimal(n / 10).push(digit_char(n % 10))
    }
}

/// Decimal notation is a row of digits that denotes the number it was made of.
pub proof fn lemma_decimal(n: nat)
    ensures
        decimal(n).len() >= 1,
        all_digits(decimal(n)),
        digits_value(decimal(n)) == n,
    decreases n,
{
    if n < 10 {
        let d = decimal(n);
        assert(d.drop_last() =~= Seq::empty());
        assert(digits_value(d.drop_last()) == 0);
        assert(d.last() == digit_char(n));
    } else {
        lemma_decimal(n / 10);
        let d = decimal(n);
        assert(d.drop_last() =~= decimal(n / 10));
        assert(d.last() == digit_char(n % 10));
    }
}

/// Appends `n` in decimal.
pub fn push_decimal(s: &mut String, n: u64)
    ensures
        final(s)@ == old(s)@ + decimal(n as nat),
    decreases n,
{
    if n < 10 {
        s.push((48 + n as u8) as char);
        assert(s@ =~= old(s)@ + decimal(n as nat));
    } else {
        push_decimal(s, n / 10);
        let ghost mid = s@;
        s.push((48 + (n % 10) as u8) as char);
        assert(s@ =~= old(s)@ + decimal(n as nat));
    }
}

/// Appends the characters of `t`.
pub fn push_text(s: &mut String, t: &str)
    ensures
        final(s)@ == old(s)@ + t@,
{
    let v = chars_of(t);
    let mut i: usize = 0;
    while i < v.len()
        invariant
            i <= v.len(),
            v@ == t@,
            s@ == old(s)@ + v@.take(i as int),
        decreases v.len() - i,
    {
        s.push(v[i]);
        i += 1;
    }
    assert(v@.take(v.len() as int) =~= t@);
}

/// The unsigned number that `s` spells, where it is at most `max`: an optional plus
/// sign and then at least one digit, nothing else.
pub open spec fn unsigned_in(s: Seq<char>, max: nat) -> Option<nat> {
    let body = if s.len() > 0 && s[0] == '+' {
        s.skip(1)
    } else {
        s
    };
    if body.len() > 0 && all_digits(body) && digits_value(body) <= max {
        Some(digits_value(body))
    } else {
        None
    }
}

proof fn lemma_digits_value_prefix(s: Seq<char>, i: int)
    requires
        0 <= i <= s.len(),
    ensures
        digits_value(s.take(i)) <= digits_value(s),
    decreases s.len() - i,
{
    if i < s.len() {
        lemma_digits_value_prefix(s, i + 1);
        assert(s.take(i + 1).drop_last() =~= s.take(i));
    } else {
        assert(s.take(i) =~= s);
    }
}

fn parse_digits(v: &[char], start: usize, max: u64) -> (r: Option<u64>)
    requires
        start <= v.len(),
    ensures
        ({
            let body = v@.skip(start as int);
            match r {
                Some(n) => body.len() > 0 && all_digits(body) && n == digits_value(body) && n <= max,
                None => !(body.len() > 0 && all_digits(body) && digits_value(body) <= max),
            }
        }),
{
    let ghost body = v@.skip(start as int);
    if start == v.len() {
        return None;
    }
    let mut n: u64 = 0;
    let mut i: usize = start;
    assert(body.take(0) =~= Seq::empty());
    while i < v.len()
        invariant
            start <= i <= v.len(),
            body == v@.skip(start as int),
            all_digits(body.take(i - start)),
            n == digits_value(body.take(i - start)),
            n <= max,
        decreases v.len() - i,
    {
        let c: char = v[i];
        assert(c == body[i - start]);
        if c < '0' || c > '9' {
            assert(!is_digit(body[i - start]));
            return None;
        }
        let d: u64 = c as u64 - 48;
        assert(body.take(i + 1 - start).drop_last() =~= body.take(i - start));
        assert(body.take(i + 1 - start).last() == c);
        proof {
            lemma_digits_value_prefix(body, i + 1 - start);
        }
        if n > max / 10 || d > max - n * 10 {
            return None;
        }
        n = n * 10 + d;
        i += 1;
        assert(all_digits(body.take(i - start))) by {
            assert forall|j: int| 0 <= j < i - start implies is_digit(
                #[trigger] body.take(i - start)[j],
            ) by {
                if j < i - 1 - start {
                    assert(body.take(i - 1 - start)[j] == body[j]);
                }
            }
        }
    }
    assert(body.take(v.len() - start) =~= body);
    Some(n)
}

/// Reads an unsigned number that is at most `max`.
pub fn parse_unsigned(s: &str, max: u64) -> (r: Option<u64>)
    ensures
        match r {
            Some(n) => unsigned_in(s@, max as nat) == Some(n as nat),
            None => unsigned_in(s@, max as nat) is None,
        },
{
    let v = chars_of(s);
    if v.len() > 0 && v[0] == '+' {
        parse_digits(v.as_slice(), 1, max)
    } else {
        assert(v@.skip(0) =~= v@);
        parse_digits(v.as_slice(), 0, max)
    }
}

/// A number written in decimal reads back as itself, under any bound that admits it.
pub proof fn law_decimal_reads_back(n: nat, max: nat)
    requires
        n <= max,
    ensures
        unsigned_in(decimal(n), max) == Some(n),
{
    lemma_decimal(n);
    assert(is_digit(decimal(n)[0]));
}

/// What a backslash followed by `c` stands for in a prompt.
pub open spec fn escape_meaning(c: char) -> Seq<char> {
    if c == 'n' {
        seq!['\n']
    } else if c == 'r' {
        seq!['\r']
    } else if c == 't' {
        seq!['\t']
    } else if c == '\\' {
        seq!['\\']
    } else {
        seq!['\\', c]
    }
}

/// `s` with its escapes replaced; a backslash at the end stays.
pub open spec fn unescaped(s: Seq<char>) -> Seq<char>
    decreases s.len(),
{
    if s.len() == 0 {
        seq![]
    } else if s[0] != '\\' {
        seq![s[0]] + unescaped(s.skip(1))
    } else if s.len() == 1 {
        seq!['\\']
    } else {
        escape_meaning(s[1]) + unescaped(s.skip(2))
    }
}

/// Replaces the escapes `\n`, `\r`, `\t` and `\\`; any other stays as it is.
pub fn unescape(s: &str) -> (out: String)
    ensures
        out@ == unescaped(s@),
{
    let v = chars_of(s);
    let mut out = String::new();
    let mut i: usize = 0;
    assert(v@.skip(0) =~= v@);
    assert(out@ + unescaped(v@) =~= unescaped(v@));
    while i < v.len()
        invariant
            i <= v.len(),
            v@ == s@,
            out@ + unescaped(v@.skip(i as int)) == unescaped(s@),
        decreases v.len() - i,
    {
        let ghost rest = v@.skip(i as int);
        let ghost before = out@;
        let c: char = v[i];
        if c != '\\' {
            out.push(c);
            assert(rest.skip(1) =~= v@.skip(i + 1));
            assert(out@ + unescaped(rest.skip(1)) =~= before + unescaped(rest));
            i += 1;
        } else if i + 1 == v.len() {
            out.push('\\');
            assert(v@.skip(i + 1).len() == 0);
            assert(out@ + unescaped(v@.skip(i + 1)) =~= before + unescaped(rest));
            i += 1;
        } else {
            let e: char = v[i + 1];
            if e == 'n' {
                out.push('\n');
            } else if e == 'r' {
                out.push('\r');
            } else if e == 't' {
                out.push('\t');
            } else if e == '\\' {
                out.push('\\');
            } else {
                out.push('\\');
                out.push(e);
            }
            assert(out@ =~= before + escape_meaning(e));
            assert(rest.skip(2) =~= v@.skip(i + 2));
            assert(out@ + unescaped(rest.skip(2)) =~= before + unescaped(rest));
            i += 2;
        }
    }
    assert(v@.skip(i as int).len() == 0);
    assert(out@ + unescaped(v@.skip(i as int)) =~= out@);
    out
}

/// A prompt without backslashes is taken as it stands.
pub proof fn law_unescape_plain(s: Seq<char>)
    requires
        !s.contains('\\'),
    ensures
        unescaped(s) == s,
    decreases s.len(),
{
    if s.len() > 0 {
        assert(s.contains(s[0]));
        assert forall|c: char| s.skip(1).contains(c) implies s.contains(c) by {
            let j = choose|j: int| 0 <= j < s.skip(1).len() && s.skip(1)[j] == c;
            assert(s[j + 1] == c);
        }
        law_unescape_plain(s.skip(1));
        assert(seq![s[0]] + s.skip(1) =~= s);
    }
}

/// `s` with escapes for line ends, tabs and backslashes.
pub open spec fn escaped(s: Seq<char>) -> Seq<char>
    decreases s.len(),
{
    if s.len() == 0 {
        seq![]
    } else {
        let c = s[0];
        let head = if c == '\n' {
            seq!['\\', 'n']
        } else if c == '\r' {
            seq!['\\', 'r']
        } else if c == '\t' {
            seq!['\\', 't']
        } else if c == '\\' {
            seq!['\\', '\\']
        } else {
            seq![c]
        };
        head + escaped(s.skip(1))
    }
}

/// Every text can be written with escapes, and replacing these gives it back.
pub proof fn law_unescape_undoes_escape(s: Seq<char>)
    ensures
        unescaped(escaped(s)) == s,
    decreases s.len(),
{
    if s.len() > 0 {
        law_unescape_undoes_escape(s.skip(1));
        let e = escaped(s);
        let rest = escaped(s.skip(1));
        let c = s[0];
        if c == '\n' || c == '\r' || c == '\t' || c == '\\' {
            assert(e.skip(2) =~= rest);
            assert(e[0] == '\\');
            assert(escape_meaning(e[1]) =~= seq![c]);
        } else {
            assert(e.skip(1) =~= rest);
            assert(e[0] == c);
        }
        assert(seq![c] + s.skip(1) =~= s);
    }
}

/// A backslash before any other character, and one at the end, stay.
pub proof fn law_other_backslashes_stay(s: Seq<char>, c: char, rest: Seq<char>)
    requires
        !s.contains('\\'),
        c != 'n' && c != 'r' && c != 't' && c != '\\',
    ensures
        unescaped(s + seq!['\\', c] + rest) == s + seq!['\\', c] + unescaped(rest),
        unescaped(s + seq!['\\']) == s + seq!['\\'],
    decreases s.len(),
{
    let a = s + seq!['\\', c] + rest;
    let b = s + seq!['\\'];
    if s.len() == 0 {
        assert(a.skip(2) =~= rest);
        assert(a[0] == '\\' && a[1] == c);
        assert(s + seq!['\\', c] + unescaped(rest) =~= escape_meaning(c) + unescaped(rest));
        assert(b =~= seq!['\\']);
    } else {
        let t = s.skip(1);
        assert(s.contains(s[0]));
        assert forall|x: char| t.contains(x) implies s.contains(x) by {
            let j = choose|j: int| 0 <= j < t.len() && t[j] == x;
            assert(s[j + 1] == x);
        }
        law_other_backslashes_stay(t, c, rest);
        assert(a.skip(1) =~= t + seq!['\\', c] + rest);
        assert(b.skip(1) =~= t + seq!['\\']);
        assert(a[0] == s[0] && b[0] == s[0]);
        assert(seq![s[0]] + (t + seq!['\\', c] + unescaped(rest)) =~= s + seq!['\\', c]
            + unescaped(rest));
        assert(seq![s[0]] + (t + seq!['\\']) =~= b);
    }
}

} // verus!
