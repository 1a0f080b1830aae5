//! The metadata of a dataset: vocabulary size and the text of each token, as JSON.
use crate::json;
use crate::json::{parse, Json, Value};
use crate::number;
use crate::number::read_index;
use crate::spans;
use crate::text;
use crate::text::{chars_of, push_decimal, push_text, same_text};
use vstd::prelude::*;

verus! {

/// The vocabulary size that an object states: its last `vocab_size` that is a number.
pub open spec fn vocab_of(fields: Seq<(Seq<char>, Json)>) -> Option<nat>
    decreases fields.len(),
{
    if fields.len() == 0 {
        None
    } else {
        match fields.last().1 {
            Json::Num(lexeme) if fields.last().0 == "vocab_size"@ => Some(
                number::literal_index(lexeme, usize::MAX as nat),
            ),
            _ => vocab_of(fields.drop_last()),
        }
    }
}

/// The texts that an array holds; an item that is no string counts as the empty one.
pub open spec fn texts(items: Seq<Json>) -> Seq<Seq<char>> {
    Seq::new(
        items.len(),
        |i: int|
            match items[i] {
                Json::Str(t) => t,
                _ => seq![],
            },
    )
}

/// The token texts that an object states: its last `itos` that is an array.
pub open spec fn itos_of(fields: Seq<(Seq<char>, Json)>) -> Seq<Seq<char>>
    decreases fields.len(),
{
    if fields.len() == 0 {
        seq![]
    } else {
        match fields.last().1 {
            Json::Arr(items) if fields.last().0 == "itos"@ => texts(items),
            _ => itos_of(fields.drop_last()),
        }
    }
}

/// What metadata text says: an object with a vocabulary size, and its token texts.
pub open spec fn meta_of(s: Seq<char>) -> Option<(nat, Seq<Seq<char>>)> {
    match json::value_at(s, 0) {
        Some((Json::Obj(fields), _)) => match vocab_of(fields) {
            Some(n) => Some((n, itos_of(fields))),
            None => None,
        },
        _ => None,
    }
}

/// The texts in a parsed array.
fn read_texts(items: &Vec<Value>) -> (r: Vec<String>)
    ensures
        text::views(r@) == texts(json::meanings(items@)),
{
    proof {
        json::lemma_meanings(items@);
    }
    let mut r: Vec<String> = Vec::new();
    let mut i: usize = 0;
    while i < items.len()
        invariant
            i <= items.len(),
            r@.len() == i,
            json::meanings(items@).len() == items@.len(),
            forall|j: int|
                0 <= j < items@.len() ==> #[trigger] json::meanings(items@)[j] == json::meaning(
                    items@[j],
                ),
            forall|j: int| 0 <= j < i ==> (#[trigger] r@[j])@ == texts(json::meanings(items@))[j],
        decreases items.len() - i,
    {
        assert(json::meanings(items@)[i as int] == json::meaning(items@[i as int]));
        match &items[i] {
            Value::Str(s) => r.push(s.clone()),
            _ => r.push(String::new()),
        }
        i += 1;
    }
    assert(text::views(r@) =~= texts(json::meanings(items@)));
    r
}

/// Reads metadata; `None` where the text is no object with a vocabulary size.
pub fn load_meta(s: &str) -> (r: Option<(usize, Vec<String>)>)
    ensures
        match r {
            Some((n, itos)) => meta_of(s@) == Some((n as nat, text::views(itos@))),
            None => meta_of(s@) is None,
        },
{
    let fields: Vec<(String, Value)> = match parse(s) {
        Some(Value::Obj(fields)) => fields,
        _ => {
            return None;
        },
    };
    let ghost f = json::field_meanings(fields@);
    proof {
        json::lemma_field_meanings(fields@);
        json::lemma_field_numbers(s@, json::after_space(s@, 0) + 1);
    }
    let mut vocab: Option<usize> = None;
    let mut itos: Vec<String> = Vec::new();
    let mut i: usize = 0;
    assert(f.take(0) =~= Seq::empty());
    assert(text::views(itos@) =~= itos_of(f.take(0)));
    while i < fields.len()
        invariant
            i <= fields.len(),
            f.len() == fields@.len(),
            forall|j: int|
                0 <= j < f.len() ==> #[trigger] f[j] == (
                    fields@[j].0@,
                    json::meaning(fields@[j].1),
                ),
            match vocab {
                Some(n) => vocab_of(f.take(i as int)) == Some(n as nat),
                None => vocab_of(f.take(i as int)) is None,
            },
            text::views(itos@) == itos_of(f.take(i as int)),
            json::value_at(s@, 0) matches Some((Json::Obj(g), _)) && g == f,
            forall|j: int|
                0 <= j < f.len() ==> ((#[trigger] f[j]).1 matches Json::Num(l)
                    ==> number::is_literal(l)),
        decreases fields.len() - i,
    {
        assert(f[i as int] == (fields@[i as int].0@, json::meaning(fields@[i as int].1)));
        assert(f.take(i + 1).drop_last() =~= f.take(i as int));
        assert(f.take(i + 1).last() == f[i as int]);
        match &fields[i].1 {
            Value::Num(l) => {
                if same_text(fields[i].0.as_str(), "vocab_size") {
                    let lexeme = chars_of(l.as_str());
                    vocab = read_index(lexeme.as_slice());
                }
            },
            Value::Arr(items) => {
                if same_text(fields[i].0.as_str(), "itos") {
                    itos = read_texts(items);
                }
            },
            _ => {},
        }
        i += 1;
    }
    assert(f.take(i as int) =~= f);
    match vocab {
        Some(n) => Some((n, itos)),
        None => None,
    }
}

/// The hexadecimal digit that is worth `d`.
pub open spec fn hex_char(d: nat) -> char {
    if d < 10 {
        (('0' as nat + d) as u8) as char
    } else {
        (('a' as nat + (d - 10)) as u8) as char
    }
}

/// How `c` is written inside a JSON string.
pub open spec fn quoted(c: char) -> Seq<char> {
    if c == '\n' {
        seq!['\\', 'n']
    } else if c == '\r' {
        seq!['\\', 'r']
    } else if c == '\t' {
        seq!['\\', 't']
    } else if c == '"' {
        seq!['\\', '"']
    } else if c == '\\' {
        seq!['\\', '\\']
    } else if (c as nat) < 0x20 {
        seq!['\\', 'u', '0', '0', hex_char(c as nat / 16), hex_char(c as nat % 16)]
    } else {
        seq![c]
    }
}

/// The string of the one character `c`, with its quotes.
pub open spec fn entry(c: char) -> Seq<char> {
    seq!['"'] + quoted(c) + seq!['"']
}

/// The entries of an array of one-character strings.
pub open spec fn entries(cs: Seq<char>) -> Seq<char>
    decreases cs.len(),
{
    if cs.len() == 0 {
        seq![]
    } else if cs.len() == 1 {
        entry(cs[0])
    } else {
        entry(cs[0]) + seq![',', ' '] + entries(cs.skip(1))
    }
}

/// The metadata text for the alphabet `cs`.
pub open spec fn meta_text(cs: Seq<char>) -> Seq<char> {
    "{\n  \"vocab_size\": "@ + text::decimal(cs.len()) + ",\n  \"itos\": ["@ + entries(cs)
        + "]\n}\n"@
}

fn to_hex(d: u8) -> (c: char)
    requires
        d < 16,
    ensures
        c == hex_char(d as nat),
{
    if d < 10 {
        (48 + d) as char
    } else {
        (97 + (d - 10)) as char
    }
}

fn push_entry(s: &mut String, c: char)
    ensures
        final(s)@ == old(s)@ + entry(c),
{
    s.push('"');
    if c == '\n' {
        s.push('\\');
        s.push('n');
    } else if c == '\r' {
        s.push('\\');
        s.push('r');
    } else if c == '\t' {
        s.push('\\');
        s.push('t');
    } else if c == '"' {
        s.push('\\');
        s.push('"');
    } else if c == '\\' {
        s.push('\\');
        s.push('\\');
    } else if (c as u32) < 0x20 {
        let u: u8 = c as u8;
        s.push('\\');
        s.push('u');
        s.push('0');
        s.push('0');
        s.push(to_hex(u / 16));
        s.push(to_hex(u % 16));
    } else {
        s.push(c);
    }
    s.push('"');
    assert(s@ =~= old(s)@ + entry(c));
}

/// The metadata text for an alphabet.
pub fn meta_json(cs: &[char]) -> (s: String)
    ensures
        s@ == meta_text(cs@),
{
    let mut s = String::new();
    push_text(&mut s, "{\n  \"vocab_size\": ");
    push_decimal(&mut s, cs.len() as u64);
    push_text(&mut s, ",\n  \"itos\": [");
    let ghost head = s@;
    let mut i: usize = 0;
    assert(cs@.skip(0) =~= cs@);
    while i < cs.len()
        invariant
            i <= cs.len(),
            i < cs.len() && i == 0 ==> s@ + entries(cs@.skip(0)) == head + entries(cs@),
            i < cs.len() && i > 0 ==> s@ + (seq![',', ' '] + entries(cs@.skip(i as int))) == head
                + entries(cs@),
            i == cs.len() ==> s@ == head + entries(cs@),
        decreases cs.len() - i,
    {
        let ghost rest = cs@.skip(i as int);
        if i > 0 {
            push_text(&mut s, ", ");
            proof {
                reveal_strlit(", ");
                assert(", "@ =~= seq![',', ' ']);
            }
        }
        let ghost before = s@;
        assert(before + entries(rest) =~= head + entries(cs@));
        push_entry(&mut s, cs[i]);
        i += 1;
        assert(rest.skip(1) =~= cs@.skip(i as int));
        assert(rest[0] == cs@[i - 1]);
        if i < cs.len() {
            assert(s@ + (seq![',', ' '] + entries(cs@.skip(i as int))) =~= before + entries(rest));
        } else {
            assert(s@ =~= before + entries(rest));
        }
    }
    push_text(&mut s, "]\n}\n");
    s
}

pub proof fn lemma_hex_round_trip(c: char, four: Seq<char>)
    requires
        (c as nat) < 0x20,
        four == seq!['0', '0', hex_char(c as nat / 16), hex_char(c as nat % 16)],
    ensures
        json::unicode_escape(four) == Some(c),
{
    let n = c as nat;
    assert(json::hex_value('0') == Some(0nat));
    assert(json::hex_value(hex_char(n / 16)) == Some(n / 16));
    assert(json::hex_value(hex_char(n % 16)) == Some(n % 16));
    let t3 = four.drop_last();
    let t2 = t3.drop_last();
    let t1 = t2.drop_last();
    assert(t1.drop_last() =~= Seq::<char>::empty());
    assert(json::hex_number(t1.drop_last()) == Some(0nat));
    assert(t1.last() == '0' && t2.last() == '0');
    assert(json::hex_number(t1) == Some(0nat));
    assert(json::hex_number(t2) == Some(0nat));
    assert(json::hex_number(t3) == Some(n / 16));
    assert(json::hex_number(four) == Some(16 * (n / 16) + n % 16));
    assert(n as char == c);
}

/// A character reads back from the way it is written inside a string.
proof fn lemma_entry(s: Seq<char>, i: int, c: char)
    requires
        spans::stands(s, i, entry(c)),
    ensures
        s[i] == '"',
        json::string_rest(s, i + 1) == Some((seq![c], i + entry(c).len())),
{
    let q = quoted(c);
    spans::lemma_stands_split(s, i, seq!['"'] + q, seq!['"']);
    spans::lemma_stands_split(s, i, seq!['"'], q);
    let e = i + 1 + q.len();
    assert(s[i] == '"');
    assert(s[e] == '"');
    assert forall|k: int| 0 <= k < q.len() implies s[i + 1 + k] == #[trigger] q[k] by {
        assert(s[i + 1 + k] == q[i + 1 + k - (i + 1)]);
    }
    assert(s[i + 1] == q[0]);
    if q.len() > 1 {
        assert(s[i + 2] == q[1]);
    }
    if q.len() == 6 {
        let four = s.subrange(i + 3, i + 7);
        assert(s[i + 3] == q[2] && s[i + 4] == q[3] && s[i + 5] == q[4] && s[i + 6] == q[5]);
        assert(four =~= seq!['0', '0', hex_char(c as nat / 16), hex_char(c as nat % 16)]);
        lemma_hex_round_trip(c, four);
    }
    assert(json::char_at(s, i + 1) == Some((c, e)));
    assert(json::string_rest(s, e) == Some((Seq::<char>::empty(), e + 1)));
    assert(seq![c] + Seq::<char>::empty() =~= seq![c]);
}

/// The strings of one character each.
pub open spec fn singles(cs: Seq<char>) -> Seq<Seq<char>> {
    Seq::new(cs.len(), |i: int| seq![cs[i]])
}

spec fn single_values(cs: Seq<char>) -> Seq<Json> {
    Seq::new(cs.len(), |i: int| Json::Str(seq![cs[i]]))
}

proof fn lemma_items_skip_space(s: Seq<char>, i: int)
    requires
        0 <= i < s.len(),
        s[i] == ' ',
    ensures
        json::items_at(s, i) == json::items_at(s, i + 1),
{
    json::lemma_after_space(s, i + 1);
}

proof fn lemma_entries(s: Seq<char>, i: int, cs: Seq<char>)
    requires
        spans::stands(s, i, entries(cs)),
        i + entries(cs).len() < s.len(),
        s[i + entries(cs).len()] == ']',
    ensures
        json::items_at(s, i) == Some((single_values(cs), i + entries(cs).len() + 1)),
    decreases cs.len(),
{
    if cs.len() == 0 {
        assert(single_values(cs) =~= Seq::<Json>::empty());
    } else if cs.len() == 1 {
        lemma_entry(s, i, cs[0]);
        let e = i + entry(cs[0]).len();
        assert(json::after_space(s, i) == i);
        assert(json::value_at(s, i) == Some((Json::Str(seq![cs[0]]), e)));
        assert(json::after_space(s, e) == e);
        assert(single_values(cs) =~= seq![Json::Str(seq![cs[0]])]);
    } else {
        let head = entry(cs[0]);
        let rest = entries(cs.skip(1));
        let e = i + head.len();
        spans::lemma_stands_split(s, i, head + seq![',', ' '], rest);
        spans::lemma_stands_split(s, i, head, seq![',', ' ']);
        lemma_entry(s, i, cs[0]);
        assert(s[e] == ',');
        assert(s[e + 1] == ' ');
        assert(e + 2 + rest.len() == i + entries(cs).len());
        lemma_entries(s, e + 2, cs.skip(1));
        lemma_items_skip_space(s, e + 1);
        assert(json::after_space(s, i) == i);
        assert(json::value_at(s, i) == Some((Json::Str(seq![cs[0]]), e)));
        assert(json::after_space(s, e) == e);
        assert(single_values(cs) =~= seq![Json::Str(seq![cs[0]])] + single_values(cs.skip(1)));
    }
}

proof fn lemma_plain_string(s: Seq<char>, i: int, t: Seq<char>)
    requires
        spans::stands(s, i, t),
        !t.contains('"'),
        !t.contains('\\'),
        i + t.len() < s.len(),
        s[i + t.len()] == '"',
    ensures
        json::string_rest(s, i) == Some((t, i + t.len() + 1)),
    decreases t.len(),
{
    if t.len() == 0 {
        assert(t =~= Seq::<char>::empty());
    } else {
        let u = t.skip(1);
        assert(s[i] == t[0]);
        assert(t.contains(t[0]));
        assert forall|c: char| u.contains(c) implies t.contains(c) by {
            let j = choose|j: int| 0 <= j < u.len() && u[j] == c;
            assert(t[j + 1] == c);
        }
        assert forall|k: int| i + 1 <= k < i + 1 + u.len() implies #[trigger] s[k] == u[k - (i
            + 1)] by {
            assert(s[k] == t[k - i]);
        }
        lemma_plain_string(s, i + 1, u);
        assert(seq![t[0]] + u =~= t);
    }
}

proof fn lemma_number_span(s: Seq<char>, i: int, t: Seq<char>)
    requires
        spans::stands(s, i, t),
        text::all_digits(t),
        i + t.len() < s.len(),
        !json::is_number_char(s[i + t.len()]),
    ensures
        json::number_end(s, i) == i + t.len(),
    decreases t.len(),
{
    if t.len() > 0 {
        let u = t.skip(1);
        assert(s[i] == t[0]);
        assert(text::is_digit(t[0]));
        assert forall|k: int| i + 1 <= k < i + 1 + u.len() implies #[trigger] s[k] == u[k - (i
            + 1)] by {
            assert(s[k] == t[k - i]);
        }
        assert forall|k: int| 0 <= k < u.len() implies text::is_digit(#[trigger] u[k]) by {
            assert(text::is_digit(t[k + 1]));
        }
        lemma_number_span(s, i + 1, u);
    }
}

/// The second field of the metadata text, from behind the comma on.
proof fn lemma_itos_field(s: Seq<char>, i: int, cs: Seq<char>)
    requires
        spans::stands(s, i, ",\n  \"itos\": ["@ + entries(cs) + "]\n}\n"@),
    ensures
        s[i] == ',',
        json::fields_at(s, i + 1) matches Some((f, _)) && f == seq![
            ("itos"@, Json::Arr(single_values(cs))),
        ],
{
    let a = ",\n  \"itos\": ["@;
    let b = entries(cs);
    let z = "]\n}\n"@;
    spans::lemma_stands_split(s, i, a + b, z);
    spans::lemma_stands_split(s, i, a, b);
    reveal_strlit(",\n  \"itos\": [");
    reveal_strlit("]\n}\n");
    reveal_strlit("itos");
    assert(s[i] == ',' && s[i + 1] == '\n' && s[i + 2] == ' ' && s[i + 3] == ' ');
    assert(s[i + 4] == '"' && s[i + 5] == 'i' && s[i + 6] == 't' && s[i + 7] == 'o');
    assert(s[i + 8] == 's' && s[i + 9] == '"' && s[i + 10] == ':' && s[i + 11] == ' ');
    assert(s[i + 12] == '[');
    let key = "itos"@;
    assert(spans::stands(s, i + 5, key));
    lemma_plain_string(s, i + 5, key);
    assert(json::after_space(s, i + 4) == i + 4);
    assert(json::after_space(s, i + 3) == i + 4);
    assert(json::after_space(s, i + 2) == i + 4);
    assert(json::after_space(s, i + 1) == i + 4);
    assert(json::after_space(s, i + 10) == i + 10);
    assert(json::after_space(s, i + 12) == i + 12);
    assert(json::after_space(s, i + 11) == i + 12);
    let e = i + 13 + b.len();
    assert(s[e] == ']' && s[e + 1] == '\n' && s[e + 2] == '}');
    lemma_entries(s, i + 13, cs);
    assert(json::value_at(s, i + 11) == Some((Json::Arr(single_values(cs)), e + 1)));
    assert(json::after_space(s, e + 2) == e + 2);
    assert(json::after_space(s, e + 1) == e + 2);
}

/// The first field of the metadata text.
proof fn lemma_vocab_field(s: Seq<char>, d: Seq<char>)
    requires
        spans::stands(s, 0, "{\n  \"vocab_size\": "@ + d),
        d.len() > 0,
        text::all_digits(d),
        number::is_literal(d),
        18 + d.len() < s.len(),
        s[18int + d.len()] == ',',
    ensures
        s[0] == '{',
        s[4] == '"',
        s[16] == ':',
        json::after_space(s, 1) == 4,
        json::string_rest(s, 5) == Some(("vocab_size"@, 16int)),
        json::after_space(s, 16) == 16,
        json::value_at(s, 17) == Some((Json::Num(d), 18int + d.len())),
{
    let h = "{\n  \"vocab_size\": "@;
    spans::lemma_stands_split(s, 0, h, d);
    reveal_strlit("{\n  \"vocab_size\": ");
    reveal_strlit("vocab_size");
    assert(s[0] == '{' && s[1] == '\n' && s[2] == ' ' && s[3] == ' ' && s[4] == '"');
    assert(s[5] == 'v' && s[6] == 'o' && s[7] == 'c' && s[8] == 'a' && s[9] == 'b');
    assert(s[10] == '_' && s[11] == 's' && s[12] == 'i' && s[13] == 'z' && s[14] == 'e');
    assert(s[15] == '"' && s[16] == ':' && s[17] == ' ');
    let key = "vocab_size"@;
    assert(spans::stands(s, 5, key));
    lemma_plain_string(s, 5, key);
    assert(json::after_space(s, 4) == 4);
    assert(json::after_space(s, 3) == 4);
    assert(json::after_space(s, 2) == 4);
    let e = 18int + d.len();
    assert(text::is_digit(d[0]));
    assert(s[18] == d[0]);
    lemma_number_span(s, 18, d);
    assert(s.subrange(18, e) =~= d);
    assert(json::after_space(s, 18) == 18);
    assert(json::after_space(s, 17) == 18);
}

/// The fields of the metadata text.
proof fn lemma_meta_fields(cs: Seq<char>)
    requires
        cs.len() < crate::rounding::TWO53,
        cs.len() <= usize::MAX,
    ensures
        json::value_at(meta_text(cs), 0) matches Some((Json::Obj(f), _)) && f == seq![
            ("vocab_size"@, Json::Num(text::decimal(cs.len()))),
        ] + seq![("itos"@, Json::Arr(single_values(cs)))],
{
    let s = meta_text(cs);
    let h = "{\n  \"vocab_size\": "@;
    let d = text::decimal(cs.len());
    let r = ",\n  \"itos\": ["@ + entries(cs) + "]\n}\n"@;
    let e = 18int + d.len();
    assert(h.len() == 18) by {
        reveal_strlit("{\n  \"vocab_size\": ");
    }
    assert(s =~= (h + d) + r);
    assert(spans::stands(s, 0, (h + d) + r));
    spans::lemma_stands_split(s, 0, h + d, r);
    lemma_itos_field(s, e, cs);
    text::lemma_decimal(cs.len());
    number::law_decimal_is_exact(cs.len(), usize::MAX as nat);
    lemma_vocab_field(s, d);
    assert(json::after_space(s, e) == e);
    assert(json::after_space(s, 0) == 0);
}

/// Metadata reads back as the alphabet it was written from: its size, and the string of
/// each character in order.
pub proof fn law_meta_reads_back(cs: Seq<char>)
    requires
        cs.len() < crate::rounding::TWO53,
        cs.len() <= usize::MAX,
    ensures
        meta_of(meta_text(cs)) == Some((cs.len(), singles(cs))),
{
    lemma_meta_fields(cs);
    number::law_decimal_is_exact(cs.len(), usize::MAX as nat);
    reveal_strlit("itos");
    reveal_strlit("vocab_size");
    let a = ("vocab_size"@, Json::Num(text::decimal(cs.len())));
    let b = ("itos"@, Json::Arr(single_values(cs)));
    let f = seq![a] + seq![b];
    assert(f.drop_last() =~= seq![a]);
    assert(seq![a].last() == a);
    assert(vocab_of(seq![a]) == Some(cs.len()));
    assert(vocab_of(f) == vocab_of(f.drop_last()));
    assert(itos_of(f) == texts(single_values(cs)));
    assert(texts(single_values(cs)) =~= singles(cs));
}

/// Of several statements the last counts: a field behind others replaces what they state where
/// it states a vocabulary size, or the texts in an array, and else changes nothing.
pub proof fn law_last_statement_counts(
    fields: Seq<(Seq<char>, Json)>,
    key: Seq<char>,
    v: Json,
)
    ensures
        vocab_of(fields.push((key, v))) == if v is Num && key == "vocab_size"@ {
            Some(number::literal_index(v->Num_0, usize::MAX as nat))
        } else {
            vocab_of(fields)
        },
        itos_of(fields.push((key, v))) == if v is Arr && key == "itos"@ {
            texts(v->Arr_0)
        } else {
            itos_of(fields)
        },
        vocab_of(Seq::<(Seq<char>, Json)>::empty()) is None,
        itos_of(Seq::<(Seq<char>, Json)>::empty()).len() == 0,
{
    let f = fields.push((key, v));
    assert(f.drop_last() =~= fields);
    assert(f.last() == (key, v));
}

} // verus!
