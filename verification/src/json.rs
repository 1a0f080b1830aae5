//! A small JSON reader for dataset metadata.
//!
//! The grammar is given by functions from a position in the text to the value that
//! starts there and the position behind it. Objects and arrays may end in a comma, and
//! a number is any decimal literal.
use crate::number;
use crate::text::{chars_of, string_of};
use vstd::prelude::*;

verus! {

/// A JSON value; a number stands as the text it was written in.
pub enum Json {
    Num(Seq<char>),
    Str(Seq<char>),
    Arr(Seq<Json>),
    Obj(Seq<(Seq<char>, Json)>),
    Bool(bool),
    Null,
}

/// A parsed JSON value.
pub enum Value {
    Num(String),
    Str(String),
    Arr(Vec<Value>),
    Obj(Vec<(String, Value)>),
    Bool(bool),
    Null,
}

/// What a parsed value stands for.
pub open spec fn meaning(v: Value) -> Json
    decreases v,
{
    match v {
        Value::Num(s) => Json::Num(s@),
        Value::Str(s) => Json::Str(s@),
        Value::Arr(items) => Json::Arr(meanings(items@)),
        Value::Obj(fields) => Json::Obj(field_meanings(fields@)),
        Value::Bool(b) => Json::Bool(b),
        Value::Null => Json::Null,
    }
}

pub open spec fn meanings(items: Seq<Value>) -> Seq<Json>
    decreases items,
{
    if items.len() == 0 {
        seq![]
    } else {
        meanings(items.drop_last()).push(meaning(items.last()))
    }
}

pub open spec fn field_meanings(fields: Seq<(String, Value)>) -> Seq<(Seq<char>, Json)>
    decreases fields,
{
    if fields.len() == 0 {
        seq![]
    } else {
        field_meanings(fields.drop_last()).push((fields.last().0@, meaning(fields.last().1)))
    }
}

/// The meanings stand in the order of the items.
pub proof fn lemma_meanings(items: Seq<Value>)
    ensures
        meanings(items).len() == items.len(),
        forall|i: int| 0 <= i < items.len() ==> #[trigger] meanings(items)[i] == meaning(items[i]),
    decreases items.len(),
{
    if items.len() > 0 {
        lemma_meanings(items.drop_last());
        assert forall|i: int| 0 <= i < items.len() implies #[trigger] meanings(items)[i] == meaning(
            items[i],
        ) by {
            if i < items.len() - 1 {
                assert(meanings(items.drop_last())[i] == meaning(items.drop_last()[i]));
            }
        }
    }
}

pub proof fn lemma_field_meanings(fields: Seq<(String, Value)>)
    ensures
        field_meanings(fields).len() == fields.len(),
        forall|i: int|
            0 <= i < fields.len() ==> #[trigger] field_meanings(fields)[i] == (
                fields[i].0@,
                meaning(fields[i].1),
            ),
    decreases fields.len(),
{
    if fields.len() > 0 {
        let head = fields.drop_last();
        lemma_field_meanings(head);
        assert forall|i: int| 0 <= i < fields.len() implies #[trigger] field_meanings(fields)[i] == (
            fields[i].0@,
            meaning(fields[i].1),
        ) by {
            if i < head.len() {
                assert(field_meanings(head)[i] == (head[i].0@, meaning(head[i].1)));
            }
        }
    }
}

/// `c` is white space between tokens.
pub open spec fn is_space(c: char) -> bool {
    c == ' ' || c == '\t' || c == '\r' || c == '\n'
}

/// The first position from `i` on that holds no white space.
pub open spec fn after_space(s: Seq<char>, i: int) -> int
    decreases s.len() - i,
{
    if 0 <= i < s.len() && is_space(s[i]) {
        after_space(s, i + 1)
    } else {
        i
    }
}

/// `c` can stand in a number.
pub open spec fn is_number_char(c: char) -> bool {
    ('0' <= c <= '9') || c == '-' || c == '+' || c == '.' || c == 'e' || c == 'E'
}

/// The end of the number characters that start at `i`.
pub open spec fn number_end(s: Seq<char>, i: int) -> int
    decreases s.len() - i,
{
    if 0 <= i < s.len() && is_number_char(s[i]) {
        number_end(s, i + 1)
    } else {
        i
    }
}

/// The value of a hexadecimal digit.
pub open spec fn hex_value(c: char) -> Option<nat> {
    if '0' <= c <= '9' {
        Some((c as nat - '0' as nat) as nat)
    } else if 'a' <= c <= 'f' {
        Some((c as nat - 'a' as nat + 10) as nat)
    } else if 'A' <= c <= 'F' {
        Some((c as nat - 'A' as nat + 10) as nat)
    } else {
        None
    }
}

/// The number that a row of hexadecimal digits denotes; `None` where one is no digit.
pub open spec fn hex_number(s: Seq<char>) -> Option<nat>
    decreases s.len(),
{
    if s.len() == 0 {
        Some(0)
    } else {
        match (hex_number(s.drop_last()), hex_value(s.last())) {
            (Some(h), Some(d)) => Some(16 * h + d),
            _ => None,
        }
    }
}

/// The character behind `\u`, given the four characters that follow. The first of them
/// may be a plus sign; a code in the surrogate range is no character.
pub open spec fn unicode_escape(four: Seq<char>) -> Option<char> {
    let digits = if four[0] == '+' {
        four.skip(1)
    } else {
        four
    };
    match hex_number(digits) {
        Some(n) => if 0xd800 <= n <= 0xdfff {
            None
        } else {
            Some(n as char)
        },
        None => None,
    }
}

/// The character that `\` and `c` stand for.
pub open spec fn short_escape(c: char) -> Option<char> {
    if c == 'n' {
        Some('\n')
    } else if c == 'r' {
        Some('\r')
    } else if c == 't' {
        Some('\t')
    } else if c == 'b' {
        Some('\u{8}')
    } else if c == 'f' {
        Some('\u{c}')
    } else if c == '"' || c == '\\' || c == '/' {
        Some(c)
    } else {
        None
    }
}

/// One character of a string that is open at `i`: the character and where it ends.
pub open spec fn char_at(s: Seq<char>, i: int) -> Option<(char, int)> {
    if s[i] != '\\' {
        Some((s[i], i + 1))
    } else if i + 1 >= s.len() {
        None
    } else if s[i + 1] == 'u' {
        if i + 6 > s.len() {
            None
        } else {
            match unicode_escape(s.subrange(i + 2, i + 6)) {
                Some(c) => Some((c, i + 6)),
                None => None,
            }
        }
    } else {
        match short_escape(s[i + 1]) {
            Some(c) => Some((c, i + 2)),
            None => None,
        }
    }
}

/// The rest of a string that is open at `i`, and the position behind its quote.
pub open spec fn string_rest(s: Seq<char>, i: int) -> Option<(Seq<char>, int)>
    decreases s.len() - i,
{
    if i < 0 || i >= s.len() {
        None
    } else if s[i] == '"' {
        Some((seq![], i + 1))
    } else {
        match char_at(s, i) {
            Some((c, j)) => match string_rest(s, j) {
                Some((t, e)) => Some((seq![c] + t, e)),
                None => None,
            },
            None => None,
        }
    }
}

/// `word` stands in `s` at `i`.
pub open spec fn word_at(s: Seq<char>, i: int, word: Seq<char>) -> bool {
    i + word.len() <= s.len() && s.subrange(i, i + word.len()) == word
}

/// The value that starts at `i` (after white space) and the position behind it.
pub open spec fn value_at(s: Seq<char>, i: int) -> Option<(Json, int)>
    decreases s.len() - i, 0int,
{
    let j = after_space(s, i);
    if i < 0 || j < i || j >= s.len() {
        None
    } else if s[j] == '{' {
        match fields_at(s, j + 1) {
            Some((fields, e)) => Some((Json::Obj(fields), e)),
            None => None,
        }
    } else if s[j] == '[' {
        match items_at(s, j + 1) {
            Some((items, e)) => Some((Json::Arr(items), e)),
            None => None,
        }
    } else if s[j] == '"' {
        match string_rest(s, j + 1) {
            Some((t, e)) => Some((Json::Str(t), e)),
            None => None,
        }
    } else if s[j] == 't' {
        if word_at(s, j, seq!['t', 'r', 'u', 'e']) {
            Some((Json::Bool(true), j + 4))
        } else {
            None
        }
    } else if s[j] == 'f' {
        if word_at(s, j, seq!['f', 'a', 'l', 's', 'e']) {
            Some((Json::Bool(false), j + 5))
        } else {
            None
        }
    } else if s[j] == 'n' {
        if word_at(s, j, seq!['n', 'u', 'l', 'l']) {
            Some((Json::Null, j + 4))
        } else {
            None
        }
    } else {
        let lexeme = s.subrange(j, number_end(s, j));
        if number::is_literal(lexeme) {
            Some((Json::Num(lexeme), number_end(s, j)))
        } else {
            None
        }
    }
}

/// The rest of an array that is open at `i`, and the position behind its bracket.
pub open spec fn items_at(s: Seq<char>, i: int) -> Option<(Seq<Json>, int)>
    decreases s.len() - i, 1int,
{
    let j = after_space(s, i);
    if i < 0 || j < i || j >= s.len() {
        None
    } else if s[j] == ']' {
        Some((seq![], j + 1))
    } else {
        match value_at(s, j) {
            Some((v, e)) => {
                let k = after_space(s, e);
                if k < j || k >= s.len() {
                    None
                } else if s[k] == ',' {
                    match items_at(s, k + 1) {
                        Some((rest, z)) => Some((seq![v] + rest, z)),
                        None => None,
                    }
                } else if s[k] == ']' {
                    Some((seq![v], k + 1))
                } else {
                    None
                }
            },
            None => None,
        }
    }
}

/// The rest of an object that is open at `i`, and the position behind its brace.
pub open spec fn fields_at(s: Seq<char>, i: int) -> Option<(Seq<(Seq<char>, Json)>, int)>
    decreases s.len() - i, 1int,
{
    let j = after_space(s, i);
    if i < 0 || j < i || j >= s.len() {
        None
    } else if s[j] == '}' {
        Some((seq![], j + 1))
    } else if s[j] == '"' {
        match string_rest(s, j + 1) {
            Some((key, q)) => {
                let m = after_space(s, q);
                if m < j || m >= s.len() || s[m] != ':' {
                    None
                } else {
                    match value_at(s, m + 1) {
                        Some((v, e)) => {
                            let k = after_space(s, e);
                            if k < j || k >= s.len() {
                                None
                            } else if s[k] == ',' {
                                match fields_at(s, k + 1) {
                                    Some((rest, z)) => Some((seq![(key, v)] + rest, z)),
                                    None => None,
                                }
                            } else if s[k] == '}' {
                                Some((seq![(key, v)], k + 1))
                            } else {
                                None
                            }
                        },
                        None => None,
                    }
                }
            },
            None => None,
        }
    } else {
        None
    }
}

pub proof fn lemma_after_space(s: Seq<char>, i: int)
    requires
        0 <= i <= s.len(),
    ensures
        i <= after_space(s, i) <= s.len(),
    decreases s.len() - i,
{
    if i < s.len() && is_space(s[i]) {
        lemma_after_space(s, i + 1);
    }
}

proof fn lemma_number_end(s: Seq<char>, i: int)
    requires
        0 <= i <= s.len(),
    ensures
        i <= number_end(s, i) <= s.len(),
    decreases s.len() - i,
{
    if i < s.len() && is_number_char(s[i]) {
        lemma_number_end(s, i + 1);
    }
}

proof fn lemma_string_rest(s: Seq<char>, i: int)
    requires
        0 <= i,
        string_rest(s, i) is Some,
    ensures
        i < string_rest(s, i)->Some_0.1 <= s.len(),
    decreases s.len() - i,
{
    if s[i] != '"' {
        let j = char_at(s, i)->Some_0.1;
        lemma_string_rest(s, j);
    }
}

pub proof fn lemma_empty_no_literal()
    ensures
        !number::is_literal(Seq::<char>::empty()),
{
    assert(number::run(Seq::<char>::empty(), 0) == 0);
}

/// A value takes up at least one character and ends within the text.
pub proof fn lemma_value_advances(s: Seq<char>, i: int)
    requires
        0 <= i,
        value_at(s, i) is Some,
    ensures
        i < value_at(s, i)->Some_0.1 <= s.len(),
    decreases s.len() - i, 0int,
{
    let j = after_space(s, i);
    if s[j] == '{' {
        lemma_fields_advance(s, j + 1);
    } else if s[j] == '[' {
        lemma_items_advance(s, j + 1);
    } else if s[j] == '"' {
        lemma_string_rest(s, j + 1);
    } else if s[j] != 't' && s[j] != 'f' && s[j] != 'n' {
        lemma_number_end(s, j);
        lemma_empty_no_literal();
        if number_end(s, j) == j {
            assert(s.subrange(j, j) =~= Seq::<char>::empty());
        }
    }
}

proof fn lemma_items_advance(s: Seq<char>, i: int)
    requires
        0 <= i,
        items_at(s, i) is Some,
    ensures
        i < items_at(s, i)->Some_0.1 <= s.len(),
    decreases s.len() - i, 1int,
{
    let j = after_space(s, i);
    if s[j] != ']' {
        let e = value_at(s, j)->Some_0.1;
        let k = after_space(s, e);
        if s[k] == ',' {
            lemma_items_advance(s, k + 1);
        }
    }
}

proof fn lemma_fields_advance(s: Seq<char>, i: int)
    requires
        0 <= i,
        fields_at(s, i) is Some,
    ensures
        i < fields_at(s, i)->Some_0.1 <= s.len(),
    decreases s.len() - i, 1int,
{
    let j = after_space(s, i);
    if s[j] != '}' {
        let q = string_rest(s, j + 1)->Some_0.1;
        let m = after_space(s, q);
        let e = value_at(s, m + 1)->Some_0.1;
        let k = after_space(s, e);
        if s[k] == ',' {
            lemma_fields_advance(s, k + 1);
        }
    }
}

/// The numbers among an object's fields are literals.
pub proof fn lemma_field_numbers(s: Seq<char>, i: int)
    requires
        fields_at(s, i) is Some,
    ensures
        forall|j: int|
            0 <= j < fields_at(s, i)->Some_0.0.len() ==> ((
            #[trigger] fields_at(s, i)->Some_0.0[j]).1 matches Json::Num(l) ==> number::is_literal(
                l,
            )),
    decreases s.len() - i,
{
    let j = after_space(s, i);
    if s[j] != '}' {
        let q = string_rest(s, j + 1)->Some_0.1;
        let m = after_space(s, q);
        let e = value_at(s, m + 1)->Some_0.1;
        let k = after_space(s, e);
        if s[k] == ',' {
            lemma_field_numbers(s, k + 1);
        }
    }
}

/// `char::from_u32` gives the character with the given code, and none for a surrogate
/// or a code beyond the last.
pub assume_specification[ char::from_u32 ](i: u32) -> (r: Option<char>)
    ensures
        r == if (0xd800 <= i <= 0xdfff) || i > 0x10ffff {
            None::<char>
        } else {
            Some(i as char)
        },
;

fn hex_digit(c: char) -> (r: Option<u32>)
    ensures
        match r {
            Some(d) => hex_value(c) == Some(d as nat) && d < 16,
            None => hex_value(c) is None,
        },
{
    if '0' <= c && c <= '9' {
        Some(c as u32 - 48)
    } else if 'a' <= c && c <= 'f' {
        Some(c as u32 - 97 + 10)
    } else if 'A' <= c && c <= 'F' {
        Some(c as u32 - 65 + 10)
    } else {
        None
    }
}

proof fn lemma_hex_prefix(s: Seq<char>, i: int)
    requires
        0 <= i <= s.len(),
        hex_number(s.take(i)) is None,
    ensures
        hex_number(s) is None,
    decreases s.len() - i,
{
    if i < s.len() {
        assert(s.take(i + 1).drop_last() =~= s.take(i));
        lemma_hex_prefix(s, i + 1);
    } else {
        assert(s.take(i) =~= s);
    }
}

/// Reads the hexadecimal digits `[from, to)`, at most four.
fn read_hex(s: &[char], from: usize, to: usize) -> (r: Option<u32>)
    requires
        from <= to <= s.len(),
        to - from <= 4,
    ensures
        match r {
            Some(n) => hex_number(s@.subrange(from as int, to as int)) == Some(n as nat) && n
                < 0x1_0000,
            None => hex_number(s@.subrange(from as int, to as int)) is None,
        },
{
    let ghost d = s@.subrange(from as int, to as int);
    let mut n: u32 = 0;
    let mut i: usize = from;
    assert(d.take(0) =~= Seq::<char>::empty());
    while i < to
        invariant
            from <= i <= to <= s.len(),
            to - from <= 4,
            d == s@.subrange(from as int, to as int),
            hex_number(d.take(i - from)) == Some(n as nat),
            i - from == 0 ==> n < 1,
            i - from == 1 ==> n < 16,
            i - from == 2 ==> n < 256,
            i - from == 3 ==> n < 4096,
            i - from == 4 ==> n < 65536,
        decreases to - i,
    {
        assert(d.take(i + 1 - from).drop_last() =~= d.take(i - from));
        assert(d.take(i + 1 - from).last() == s@[i as int]);
        match hex_digit(s[i]) {
            Some(h) => {
                n = n * 16 + h;
            },
            None => {
                proof {
                    lemma_hex_prefix(d, i + 1 - from);
                }
                return None;
            },
        }
        i += 1;
    }
    assert(d.take(to - from) =~= d);
    Some(n)
}

/// Reads the four characters from `i` on as a `\u` escape.
fn read_unicode_escape(s: &[char], i: usize) -> (r: Option<char>)
    requires
        i + 4 <= s.len(),
    ensures
        r == unicode_escape(s@.subrange(i as int, i + 4)),
{
    let ghost four = s@.subrange(i as int, i + 4);
    let from: usize = if s[i] == '+' {
        i + 1
    } else {
        i
    };
    assert(s@.subrange(from as int, i + 4) =~= if four[0] == '+' {
        four.skip(1)
    } else {
        four
    });
    match read_hex(s, from, i + 4) {
        Some(n) => char::from_u32(n),
        None => None,
    }
}

fn read_short_escape(c: char) -> (r: Option<char>)
    ensures
        r == short_escape(c),
{
    if c == 'n' {
        Some('\n')
    } else if c == 'r' {
        Some('\r')
    } else if c == 't' {
        Some('\t')
    } else if c == 'b' {
        Some('\u{8}')
    } else if c == 'f' {
        Some('\u{c}')
    } else if c == '"' || c == '\\' || c == '/' {
        Some(c)
    } else {
        None
    }
}

/// A cursor in the text.
struct Parser<'a> {
    s: &'a [char],
    i: usize,
}

impl<'a> Parser<'a> {
    spec fn ok(&self) -> bool {
        self.i <= self.s@.len() <= usize::MAX
    }

    fn skip_ws(&mut self)
        requires
            old(self).ok(),
        ensures
            final(self).ok(),
            final(self).s@ == old(self).s@,
            final(self).i == after_space(old(self).s@, old(self).i as int),
            final(self).i >= old(self).i,
            after_space(final(self).s@, final(self).i as int) == final(self).i,
    {
        while self.i < self.s.len() && (self.s[self.i] == ' ' || self.s[self.i] == '\t'
            || self.s[self.i] == '\r' || self.s[self.i] == '\n')
            invariant
                self.ok(),
                self.s@ == old(self).s@,
                old(self).i <= self.i,
                after_space(self.s@, self.i as int) == after_space(self.s@, old(self).i as int),
            decreases self.s@.len() - self.i,
        {
            self.i += 1;
        }
    }

    fn peek(&mut self) -> (r: Option<char>)
        requires
            old(self).ok(),
        ensures
            final(self).ok(),
            final(self).s@ == old(self).s@,
            final(self).i == after_space(old(self).s@, old(self).i as int),
            final(self).i >= old(self).i,
            after_space(final(self).s@, final(self).i as int) == final(self).i,
            match r {
                Some(c) => final(self).i < final(self).s@.len() && c
                    == final(self).s@[final(self).i as int],
                None => final(self).i == final(self).s@.len(),
            },
    {
        self.skip_ws();
        if self.i < self.s.len() {
            Some(self.s[self.i])
        } else {
            None
        }
    }

    /// Steps over white space, and over `word` where it comes next.
    fn expect_lit(&mut self, word: &[char]) -> (r: bool)
        requires
            old(self).ok(),
        ensures
            final(self).ok(),
            final(self).s@ == old(self).s@,
            ({
                let j = after_space(old(self).s@, old(self).i as int);
                &&& r == word_at(old(self).s@, j, word@)
                &&& final(self).i == if r {
                    j + word@.len()
                } else {
                    j
                }
            }),
    {
        self.skip_ws();
        let ghost at = *self;
        if word.len() > self.s.len() - self.i {
            return false;
        }
        let mut k: usize = 0;
        while k < word.len()
            invariant
                *self == at,
                self.ok(),
                self.s@ == old(self).s@,
                self.i == after_space(old(self).s@, old(self).i as int),
                word.len() <= self.s.len() - self.i,
                k <= word.len(),
                forall|j: int| 0 <= j < k ==> self.s@[self.i + j] == word@[j],
            decreases word.len() - k,
        {
            if self.s[self.i + k] != word[k] {
                assert(self.s@.subrange(self.i as int, self.i + word@.len())[k as int] != word@[
                    k as int
                ]);
                return false;
            }
            k += 1;
        }
        assert(self.s@.subrange(self.i as int, self.i + word@.len()) =~= word@);
        self.i += word.len();
        true
    }

    /// The string that comes next, after white space; `None` where no string does.
    fn parse_string(&mut self) -> (r: Option<String>)
        requires
            old(self).ok(),
        ensures
            final(self).ok(),
            final(self).s@ == old(self).s@,
            ({
                let s = old(self).s@;
                let j = after_space(s, old(self).i as int);
                let found = if j < s.len() && s[j] == '"' {
                    string_rest(s, j + 1)
                } else {
                    None
                };
                match r {
                    Some(t) => found == Some((t@, final(self).i as int)),
                    None => found is None,
                }
            }),
    {
        let ghost s = self.s@;
        self.skip_ws();
        let ghost j = self.i as int;
        if self.i == self.s.len() || self.s[self.i] != '"' {
            return None;
        }
        let ghost start = j + 1;
        self.i += 1;
        let mut out: Vec<char> = Vec::new();
        proof {
            if let Some((t, e)) = string_rest(s, start) {
                assert(out@ + t =~= t);
            }
        }
        while self.i < self.s.len()
            invariant
                self.ok(),
                self.s@ == s,
                s == old(self).s@,
                j == after_space(s, old(self).i as int),
                j < s.len() && s[j] == '"',
                start == j + 1,
                match string_rest(s, self.i as int) {
                    Some((t, e)) => string_rest(s, start) == Some((out@ + t, e)),
                    None => string_rest(s, start) is None,
                },
            decreases s.len() - self.i,
        {
            let ghost at = self.i as int;
            let ghost before = out@;
            let c: char = self.s[self.i];
            if c == '"' {
                self.i += 1;
                assert(out@ + Seq::<char>::empty() =~= out@);
                return Some(string_of(out.as_slice()));
            }
            if c != '\\' {
                out.push(c);
                self.i += 1;
            } else {
                self.i += 1;
                if self.i == self.s.len() {
                    return None;
                }
                let e: char = self.s[self.i];
                self.i += 1;
                if e == 'u' {
                    if self.s.len() - self.i < 4 {
                        return None;
                    }
                    match read_unicode_escape(self.s, self.i) {
                        Some(u) => {
                            out.push(u);
                            self.i += 4;
                        },
                        None => {
                            return None;
                        },
                    }
                } else {
                    match read_short_escape(e) {
                        Some(u) => {
                            out.push(u);
                        },
                        None => {
                            return None;
                        },
                    }
                }
            }
            proof {
                assert(char_at(s, at) == Some((out@.last(), self.i as int)));
                if let Some((t, e)) = string_rest(s, self.i as int) {
                    assert(before + (seq![out@.last()] + t) =~= out@ + t);
                }
            }
        }
        None
    }

    /// The number that comes next, after white space, by its text.
    fn parse_number(&mut self) -> (r: Option<String>)
        requires
            old(self).ok(),
        ensures
            final(self).ok(),
            final(self).s@ == old(self).s@,
            ({
                let j = after_space(old(self).s@, old(self).i as int);
                let lexeme = old(self).s@.subrange(j, final(self).i as int);
                &&& final(self).i == number_end(old(self).s@, j)
                &&& match r {
                    Some(t) => t@ == lexeme && number::is_literal(lexeme),
                    None => !number::is_literal(lexeme),
                }
            }),
    {
        self.skip_ws();
        let start: usize = self.i;
        while self.i < self.s.len() && (('0' <= self.s[self.i] && self.s[self.i] <= '9')
            || self.s[self.i] == '-' || self.s[self.i] == '+' || self.s[self.i] == '.'
            || self.s[self.i] == 'e' || self.s[self.i] == 'E')
            invariant
                self.ok(),
                self.s@ == old(self).s@,
                start == after_space(old(self).s@, old(self).i as int),
                start <= self.i,
                number_end(self.s@, self.i as int) == number_end(self.s@, start as int),
            decreases self.s@.len() - self.i,
        {
            self.i += 1;
        }
        let lexeme = vstd::slice::slice_subrange(self.s, start, self.i);
        match number::read_index(lexeme) {
            Some(_) => Some(string_of(lexeme)),
            None => None,
        }
    }

    /// The value at the cursor.
    fn parse_value(&mut self) -> (r: Option<Value>)
        requires
            old(self).ok(),
        ensures
            final(self).ok(),
            final(self).s@ == old(self).s@,
            match r {
                Some(v) => value_at(old(self).s@, old(self).i as int) == Some(
                    (meaning(v), final(self).i as int),
                ),
                None => value_at(old(self).s@, old(self).i as int) is None,
            },
        decreases old(self).s@.len() - old(self).i, 2int,
    {
        let c: char = match self.peek() {
            Some(c) => c,
            None => {
                return None;
            },
        };
        if c == '{' {
            self.parse_obj()
        } else if c == '[' {
            self.parse_arr()
        } else if c == '"' {
            match self.parse_string() {
                Some(t) => Some(Value::Str(t)),
                None => None,
            }
        } else if c == 't' {
            if self.expect_lit(&['t', 'r', 'u', 'e']) {
                Some(Value::Bool(true))
            } else {
                None
            }
        } else if c == 'f' {
            if self.expect_lit(&['f', 'a', 'l', 's', 'e']) {
                Some(Value::Bool(false))
            } else {
                None
            }
        } else if c == 'n' {
            if self.expect_lit(&['n', 'u', 'l', 'l']) {
                Some(Value::Null)
            } else {
                None
            }
        } else {
            match self.parse_number() {
                Some(t) => Some(Value::Num(t)),
                None => None,
            }
        }
    }

    /// The object that comes next, after white space; `None` where no object does.
    fn parse_obj(&mut self) -> (r: Option<Value>)
        requires
            old(self).ok(),
        ensures
            final(self).ok(),
            final(self).s@ == old(self).s@,
            ({
                let s = old(self).s@;
                let j = after_space(s, old(self).i as int);
                let found = if j < s.len() && s[j] == '{' {
                    fields_at(s, j + 1)
                } else {
                    None
                };
                match r {
                    Some(v) => found matches Some((fields, e)) && meaning(v) == Json::Obj(fields) && e
                        == final(self).i,
                    None => found is None,
                }
            }),
        decreases old(self).s@.len() - old(self).i, 1int,
    {
        let ghost s = self.s@;
        self.skip_ws();
        let ghost j0 = self.i as int;
        if self.i == self.s.len() || self.s[self.i] != '{' {
            return None;
        }
        let ghost start = j0 + 1;
        self.i += 1;
        let mut fields: Vec<(String, Value)> = Vec::new();
        proof {
            if let Some((rest, e)) = fields_at(s, start) {
                assert(field_meanings(fields@) + rest =~= rest);
            }
        }
        loop
            invariant
                self.ok(),
                self.s@ == s,
                s == old(self).s@,
                j0 == after_space(s, old(self).i as int),
                old(self).i <= j0 < s.len() && s[j0] == '{',
                start == j0 + 1,
                self.i >= start,
                match fields_at(s, self.i as int) {
                    Some((rest, e)) => fields_at(s, start) == Some(
                        (field_meanings(fields@) + rest, e),
                    ),
                    None => fields_at(s, start) is None,
                },
            decreases s.len() - self.i,
        {
            let ghost before = field_meanings(fields@);
            let ghost at = self.i as int;
            let c: char = match self.peek() {
                Some(c) => c,
                None => {
                    return None;
                },
            };
            if c == '}' {
                self.i += 1;
                assert(before + Seq::<(Seq<char>, Json)>::empty() =~= before);
                return Some(Value::Obj(fields));
            }
            if c != '"' {
                return None;
            }
            let ghost j = self.i as int;
            let key: String = match self.parse_string() {
                Some(k) => k,
                None => {
                    return None;
                },
            };
            proof {
                lemma_string_rest(s, j + 1);
            }
            match self.peek() {
                Some(d) => {
                    if d != ':' {
                        return None;
                    }
                },
                None => {
                    return None;
                },
            }
            self.i += 1;
            let ghost from = self.i as int;
            let val: Value = match self.parse_value() {
                Some(v) => v,
                None => {
                    return None;
                },
            };
            proof {
                lemma_value_advances(s, from);
                lemma_after_space(s, self.i as int);
            }
            let ghost field = (key@, meaning(val));
            let ghost held = fields@;
            fields.push((key, val));
            assert(fields@.drop_last() =~= held);
            assert(field_meanings(fields@) =~= before + seq![field]);
            match self.peek() {
                Some(d) => {
                    if d == ',' {
                        self.i += 1;
                        proof {
                            if let Some((rest, e)) = fields_at(s, self.i as int) {
                                assert(before + (seq![field] + rest) =~= field_meanings(fields@)
                                    + rest);
                            }
                        }
                    } else if d == '}' {
                        self.i += 1;
                        return Some(Value::Obj(fields));
                    } else {
                        return None;
                    }
                },
                None => {
                    return None;
                },
            }
        }
    }

    /// The array that comes next, after white space; `None` where no array does.
    fn parse_arr(&mut self) -> (r: Option<Value>)
        requires
            old(self).ok(),
        ensures
            final(self).ok(),
            final(self).s@ == old(self).s@,
            ({
                let s = old(self).s@;
                let j = after_space(s, old(self).i as int);
                let found = if j < s.len() && s[j] == '[' {
                    items_at(s, j + 1)
                } else {
                    None
                };
                match r {
                    Some(v) => found matches Some((items, e)) && meaning(v) == Json::Arr(items) && e
                        == final(self).i,
                    None => found is None,
                }
            }),
        decreases old(self).s@.len() - old(self).i, 1int,
    {
        let ghost s = self.s@;
        self.skip_ws();
        let ghost j0 = self.i as int;
        if self.i == self.s.len() || self.s[self.i] != '[' {
            return None;
        }
        let ghost start = j0 + 1;
        self.i += 1;
        let mut items: Vec<Value> = Vec::new();
        proof {
            if let Some((rest, e)) = items_at(s, start) {
                assert(meanings(items@) + rest =~= rest);
            }
        }
        loop
            invariant
                self.ok(),
                self.s@ == s,
                s == old(self).s@,
                j0 == after_space(s, old(self).i as int),
                old(self).i <= j0 < s.len() && s[j0] == '[',
                start == j0 + 1,
                self.i >= start,
                match items_at(s, self.i as int) {
                    Some((rest, e)) => items_at(s, start) == Some((meanings(items@) + rest, e)),
                    None => items_at(s, start) is None,
                },
            decreases s.len() - self.i,
        {
            let ghost before = meanings(items@);
            let ghost at = self.i as int;
            match self.peek() {
                Some(c) => {
                    if c == ']' {
                        self.i += 1;
                        assert(before + Seq::<Json>::empty() =~= before);
                        return Some(Value::Arr(items));
                    }
                },
                None => {
                    return None;
                },
            }
            let ghost from = self.i as int;
            let val: Value = match self.parse_value() {
                Some(v) => v,
                None => {
                    return None;
                },
            };
            proof {
                lemma_value_advances(s, from);
                lemma_after_space(s, self.i as int);
            }
            let ghost item = meaning(val);
            let ghost held = items@;
            items.push(val);
            assert(items@.drop_last() =~= held);
            assert(meanings(items@) =~= before + seq![item]);
            match self.peek() {
                Some(d) => {
                    if d == ',' {
                        self.i += 1;
                        proof {
                            if let Some((rest, e)) = items_at(s, self.i as int) {
                                assert(before + (seq![item] + rest) =~= meanings(items@) + rest);
                            }
                        }
                    } else if d == ']' {
                        self.i += 1;
                        return Some(Value::Arr(items));
                    } else {
                        return None;
                    }
                },
                None => {
                    return None;
                },
            }
        }
    }
}

/// The value at the start of `text`; what follows it is not looked at.
pub fn parse(text: &str) -> (r: Option<Value>)
    ensures
        match r {
            Some(v) => value_at(text@, 0) matches Some((j, _)) && j == meaning(v),
            None => value_at(text@, 0) is None,
        },
{
    let s = chars_of(text);
    assert(s.len() <= usize::MAX);
    let mut p = Parser { s: s.as_slice(), i: 0 };
    p.parse_value()
}

} // verus!
