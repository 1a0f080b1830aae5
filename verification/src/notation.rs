//! JSON texts and the values they stand for.
use crate::json;
use crate::json::Json;
use crate::meta;
use crate::number;
use crate::spans;
use vstd::prelude::*;

verus! {

/// Every character is white space.
pub open spec fn all_space(w: Seq<char>) -> bool {
    forall|i: int| 0 <= i < w.len() ==> json::is_space(#[trigger] w[i])
}

/// The characters of a string as they stand between its quotes.
pub open spec fn quoted_all(t: Seq<char>) -> Seq<char>
    decreases t.len(),
{
    if t.len() == 0 {
        seq![]
    } else {
        meta::quoted(t[0]) + quoted_all(t.skip(1))
    }
}

/// A string in quotes.
pub open spec fn quote(t: Seq<char>) -> Seq<char> {
    seq!['"'] + (quoted_all(t) + seq!['"'])
}

/// A value in JSON, with the white space `w` wherever some may stand.
pub open spec fn written(v: Json, w: Seq<char>) -> Seq<char>
    decreases v,
{
    match v {
        Json::Num(lexeme) => lexeme,
        Json::Str(t) => quote(t),
        Json::Arr(items) => seq!['['] + items_written(items, w),
        Json::Obj(fields) => seq!['{'] + fields_written(fields, w),
        Json::Bool(true) => seq!['t', 'r', 'u', 'e'],
        Json::Bool(false) => seq!['f', 'a', 'l', 's', 'e'],
        Json::Null => seq!['n', 'u', 'l', 'l'],
    }
}

/// The items of an array, up to its closing bracket.
pub open spec fn items_written(items: Seq<Json>, w: Seq<char>) -> Seq<char>
    decreases items,
{
    if items.len() == 0 {
        w + seq![']']
    } else if items.len() == 1 {
        w + (written(items[0], w) + (w + seq![']']))
    } else {
        w + (written(items[0], w) + (w + (seq![','] + items_written(items.skip(1), w))))
    }
}

/// The fields of an object, up to its closing brace.
pub open spec fn fields_written(fields: Seq<(Seq<char>, Json)>, w: Seq<char>) -> Seq<char>
    decreases fields,
{
    if fields.len() == 0 {
        w + seq!['}']
    } else {
        let end = if fields.len() == 1 {
            seq!['}']
        } else {
            seq![','] + fields_written(fields.skip(1), w)
        };
        w + (quote(fields[0].0) + (w + (seq![':'] + (w + (written(fields[0].1, w) + (w + end))))))
    }
}

/// The numbers in a value are number literals.
pub open spec fn has_literals(v: Json) -> bool
    decreases v,
{
    match v {
        Json::Num(lexeme) => number::is_literal(lexeme) && forall|i: int|
            0 <= i < lexeme.len() ==> json::is_number_char(#[trigger] lexeme[i]),
        Json::Arr(items) => items_have_literals(items),
        Json::Obj(fields) => fields_have_literals(fields),
        _ => true,
    }
}

pub open spec fn items_have_literals(items: Seq<Json>) -> bool
    decreases items,
{
    items.len() > 0 ==> has_literals(items[0]) && items_have_literals(items.skip(1))
}

pub open spec fn fields_have_literals(fields: Seq<(Seq<char>, Json)>) -> bool
    decreases fields,
{
    fields.len() > 0 ==> has_literals(fields[0].1) && fields_have_literals(fields.skip(1))
}

/// White space is skipped up to the first other character.
proof fn lemma_gap(s: Seq<char>, i: int, w: Seq<char>)
    requires
        spans::stands(s, i, w),
        all_space(w),
        i + w.len() < s.len(),
        !json::is_space(s[i + w.len()]),
    ensures
        json::after_space(s, i) == i + w.len(),
    decreases w.len(),
{
    if w.len() > 0 {
        let u = w.skip(1);
        assert(s[i] == w[0]);
        assert forall|k: int| i + 1 <= k < i + 1 + u.len() implies #[trigger] s[k] == u[k - (i
            + 1)] by {
            assert(s[k] == w[k - i]);
        }
        lemma_gap(s, i + 1, u);
    }
}

proof fn lemma_number(s: Seq<char>, i: int, t: Seq<char>)
    requires
        spans::stands(s, i, t),
        forall|k: int| 0 <= k < t.len() ==> json::is_number_char(#[trigger] t[k]),
        i + t.len() < s.len() ==> !json::is_number_char(s[i + t.len()]),
    ensures
        json::number_end(s, i) == i + t.len(),
    decreases t.len(),
{
    if t.len() > 0 {
        let u = t.skip(1);
        assert(s[i] == t[0]);
        assert forall|k: int| i + 1 <= k < i + 1 + u.len() implies #[trigger] s[k] == u[k - (i
            + 1)] by {
            assert(s[k] == t[k - i]);
        }
        lemma_number(s, i + 1, u);
    }
}

proof fn lemma_char(s: Seq<char>, i: int, c: char)
    requires
        spans::stands(s, i, meta::quoted(c)),
    ensures
        meta::quoted(c).len() >= 1,
        s[i] != '"',
        json::char_at(s, i) == Some((c, i + meta::quoted(c).len())),
{
    let q = meta::quoted(c);
    assert forall|k: int| 0 <= k < q.len() implies s[i + k] == #[trigger] q[k] by {
        assert(s[i + k] == q[i + k - i]);
    }
    assert(s[i] == q[0]);
    if q.len() > 1 {
        assert(s[i + 1] == q[1]);
    }
    if q.len() == 6 {
        let four = s.subrange(i + 2, i + 6);
        assert(s[i + 2] == q[2] && s[i + 3] == q[3] && s[i + 4] == q[4] && s[i + 5] == q[5]);
        assert(four =~= seq![
            '0',
            '0',
            meta::hex_char(c as nat / 16),
            meta::hex_char(c as nat % 16),
        ]);
        meta::lemma_hex_round_trip(c, four);
    }
}

proof fn lemma_string(s: Seq<char>, i: int, t: Seq<char>)
    requires
        spans::stands(s, i, quoted_all(t) + seq!['"']),
    ensures
        json::string_rest(s, i) == Some((t, i + quoted_all(t).len() + 1)),
    decreases t.len(),
{
    spans::lemma_stands_split(s, i, quoted_all(t), seq!['"']);
    if t.len() == 0 {
        assert(s[i] == '"');
        assert(t =~= Seq::<char>::empty());
    } else {
        let u = t.skip(1);
        let q = meta::quoted(t[0]);
        assert(quoted_all(t) + seq!['"'] =~= q + (quoted_all(u) + seq!['"']));
        spans::lemma_stands_split(s, i, q, quoted_all(u) + seq!['"']);
        lemma_char(s, i, t[0]);
        lemma_string(s, i + q.len(), u);
        assert(seq![t[0]] + u =~= t);
    }
}

proof fn lemma_quote(s: Seq<char>, i: int, t: Seq<char>)
    requires
        spans::stands(s, i, quote(t)),
    ensures
        s[i] == '"',
        json::string_rest(s, i + 1) == Some((t, i + quote(t).len())),
{
    spans::lemma_stands_split(s, i, seq!['"'], quoted_all(t) + seq!['"']);
    lemma_string(s, i + 1, t);
}

proof fn lemma_word(s: Seq<char>, i: int, word: Seq<char>)
    requires
        spans::stands(s, i, word),
    ensures
        json::word_at(s, i, word),
{
    spans::lemma_stands_subrange(s, i, word);
}

/// No value starts with white space, or with what closes or separates.
proof fn lemma_first(v: Json, w: Seq<char>)
    requires
        has_literals(v),
    ensures
        written(v, w).len() >= 1,
        !json::is_space(written(v, w)[0]),
        written(v, w)[0] != ']',
{
    match v {
        Json::Num(lexeme) => {
            assert(lexeme.len() > 0) by {
                if lexeme.len() == 0 {
                    assert(lexeme =~= Seq::<char>::empty());
                    json::lemma_empty_no_literal();
                }
            }
            assert(json::is_number_char(lexeme[0]));
        },
        _ => {},
    }
}

/// Where a value stands in a text, written with any white space, and no character of a number
/// follows it, reading it gives the value and the place behind it.
pub proof fn law_json_reads_back(s: Seq<char>, i: int, v: Json, w: Seq<char>)
    requires
        all_space(w),
        has_literals(v),
        spans::stands(s, i, written(v, w)),
        i + written(v, w).len() < s.len() ==> !json::is_number_char(s[i + written(v, w).len()]),
    ensures
        json::value_at(s, i) == Some((v, i + written(v, w).len())),
    decreases v, 0int,
{
    let t = written(v, w);
    lemma_first(v, w);
    assert(s[i] == t[0]);
    assert(json::after_space(s, i) == i);
    match v {
        Json::Num(lexeme) => {
            lemma_number(s, i, lexeme);
            spans::lemma_stands_subrange(s, i, lexeme);
            assert(json::is_number_char(lexeme[0]));
        },
        Json::Str(x) => {
            lemma_quote(s, i, x);
        },
        Json::Arr(items) => {
            spans::lemma_stands_split(s, i, seq!['['], items_written(items, w));
            lemma_items(s, i + 1, items, w);
        },
        Json::Obj(fields) => {
            spans::lemma_stands_split(s, i, seq!['{'], fields_written(fields, w));
            lemma_fields(s, i + 1, fields, w);
        },
        Json::Bool(b) => {
            lemma_word(s, i, t);
        },
        Json::Null => {
            lemma_word(s, i, t);
        },
    }
}

proof fn lemma_items(s: Seq<char>, i: int, items: Seq<Json>, w: Seq<char>)
    requires
        all_space(w),
        items_have_literals(items),
        spans::stands(s, i, items_written(items, w)),
    ensures
        json::items_at(s, i) == Some((items, i + items_written(items, w).len())),
    decreases items, 0int,
{
    let j = i + w.len();
    if items.len() == 0 {
        spans::lemma_stands_split(s, i, w, seq![']']);
        assert(s[j] == ']');
        lemma_gap(s, i, w);
        assert(items =~= Seq::<Json>::empty());
    } else {
        let v = items[0];
        let t = written(v, w);
        let last = items.len() == 1;
        let end = if last {
            seq![']']
        } else {
            seq![','] + items_written(items.skip(1), w)
        };
        assert(items_written(items, w) == w + (t + (w + end)));
        spans::lemma_stands_split(s, i, w, t + (w + end));
        spans::lemma_stands_split(s, j, t, w + end);
        let e = j + t.len();
        spans::lemma_stands_split(s, e, w, end);
        let k = e + w.len();
        lemma_first(v, w);
        assert(s[j] == t[0]);
        assert(s[k] == end[0]);
        lemma_gap(s, i, w);
        lemma_gap(s, e, w);
        assert(e < s.len() ==> !json::is_number_char(s[e])) by {
            if w.len() > 0 {
                assert(s[e] == w[0]);
            }
        }
        law_json_reads_back(s, j, v, w);
        if last {
            assert(seq![v] =~= items);
        } else {
            spans::lemma_stands_split(s, k, seq![','], items_written(items.skip(1), w));
            lemma_items(s, k + 1, items.skip(1), w);
            assert(seq![v] + items.skip(1) =~= items);
        }
    }
}

/// Where the parts of a field stand.
proof fn lemma_field_parts(
    s: Seq<char>,
    i: int,
    key: Seq<char>,
    t: Seq<char>,
    w: Seq<char>,
    end: Seq<char>,
)
    requires
        spans::stands(s, i, w + (key + (w + (seq![':'] + (w + (t + (w + end))))))),
    ensures
        ({
            let j = i + w.len();
            let q = j + key.len();
            let m = q + w.len();
            let p = m + 1 + w.len();
            let e = p + t.len();
            let k = e + w.len();
            &&& spans::stands(s, i, w)
            &&& spans::stands(s, j, key)
            &&& spans::stands(s, q, w)
            &&& spans::stands(s, m, seq![':'])
            &&& spans::stands(s, m + 1, w)
            &&& spans::stands(s, p, t)
            &&& spans::stands(s, e, w)
            &&& spans::stands(s, k, end)
        }),
{
    let c5 = w + end;
    let c4 = t + c5;
    let c3 = w + c4;
    let c2 = seq![':'] + c3;
    let c1 = w + c2;
    let j = i + w.len();
    let q = j + key.len();
    let m = q + w.len();
    let p = m + 1 + w.len();
    let e = p + t.len();
    spans::lemma_stands_split(s, i, w, key + c1);
    spans::lemma_stands_split(s, j, key, c1);
    spans::lemma_stands_split(s, q, w, c2);
    spans::lemma_stands_split(s, m, seq![':'], c3);
    spans::lemma_stands_split(s, m + 1, w, c4);
    spans::lemma_stands_split(s, p, t, c5);
    spans::lemma_stands_split(s, e, w, end);
}

proof fn lemma_fields(s: Seq<char>, i: int, fields: Seq<(Seq<char>, Json)>, w: Seq<char>)
    requires
        all_space(w),
        fields_have_literals(fields),
        spans::stands(s, i, fields_written(fields, w)),
    ensures
        json::fields_at(s, i) == Some((fields, i + fields_written(fields, w).len())),
    decreases fields, 0int,
{
    let j = i + w.len();
    if fields.len() == 0 {
        spans::lemma_stands_split(s, i, w, seq!['}']);
        assert(s[j] == '}');
        lemma_gap(s, i, w);
        assert(fields =~= Seq::<(Seq<char>, Json)>::empty());
    } else {
        let (key, v) = (fields[0].0, fields[0].1);
        let t = written(v, w);
        let last = fields.len() == 1;
        let end = if last {
            seq!['}']
        } else {
            seq![','] + fields_written(fields.skip(1), w)
        };
        lemma_field_parts(s, i, quote(key), t, w, end);
        let k = j + quote(key).len() + w.len() + 1 + w.len() + t.len() + w.len();
        lemma_field(s, i, key, v, w, end);
        if last {
            assert(seq![(key, v)] =~= fields);
        } else {
            spans::lemma_stands_split(s, k, seq![','], fields_written(fields.skip(1), w));
            lemma_fields(s, k + 1, fields.skip(1), w);
            assert(seq![(key, v)] + fields.skip(1) =~= fields);
        }
    }
}

/// One field of an object, and what comes behind it.
proof fn lemma_field(
    s: Seq<char>,
    i: int,
    key: Seq<char>,
    v: Json,
    w: Seq<char>,
    end: Seq<char>,
)
    requires
        all_space(w),
        has_literals(v),
        end.len() >= 1,
        end[0] == '}' || end[0] == ',',
        spans::stands(
            s,
            i,
            w + (quote(key) + (w + (seq![':'] + (w + (written(v, w) + (w + end)))))),
        ),
    ensures
        ({
            let k = i + w.len() + quote(key).len() + w.len() + 1 + w.len() + written(v, w).len()
                + w.len();
            json::fields_at(s, i) == if end[0] == '}' {
                Some((seq![(key, v)], k + 1))
            } else {
                match json::fields_at(s, k + 1) {
                    Some((rest, z)) => Some((seq![(key, v)] + rest, z)),
                    None => None,
                }
            }
        }),
    decreases v, 1int,
{
    let t = written(v, w);
    lemma_field_parts(s, i, quote(key), t, w, end);
    let j = i + w.len();
    let q = j + quote(key).len();
    let m = q + w.len();
    let p = m + 1 + w.len();
    let e = p + t.len();
    let k = e + w.len();
    lemma_quote(s, j, key);
    assert(s[m] == ':');
    lemma_first(v, w);
    assert(s[p] == t[0]);
    assert(s[k] == end[0]);
    lemma_gap(s, i, w);
    lemma_gap(s, q, w);
    lemma_gap(s, m + 1, w);
    lemma_gap(s, e, w);
    assert(e < s.len() ==> !json::is_number_char(s[e])) by {
        if w.len() > 0 {
            assert(s[e] == w[0]);
        }
    }
    law_json_reads_back(s, p, v, w);
    assert(json::after_space(s, p) == p);
    assert(json::value_at(s, m + 1) == json::value_at(s, p));
    lemma_one_field(s, i, j, key, q, m, v, e, k);
}

/// How one field is read, from where its parts are.
proof fn lemma_one_field(
    s: Seq<char>,
    i: int,
    j: int,
    key: Seq<char>,
    q: int,
    m: int,
    v: Json,
    e: int,
    k: int,
)
    requires
        0 <= i <= j < m < e <= k < s.len(),
        json::after_space(s, i) == j,
        s[j] == '"',
        json::string_rest(s, j + 1) == Some((key, q)),
        json::after_space(s, q) == m,
        s[m] == ':',
        json::value_at(s, m + 1) == Some((v, e)),
        json::after_space(s, e) == k,
        s[k] == '}' || s[k] == ',',
    ensures
        json::fields_at(s, i) == if s[k] == '}' {
            Some((seq![(key, v)], k + 1))
        } else {
            match json::fields_at(s, k + 1) {
                Some((rest, z)) => Some((seq![(key, v)] + rest, z)),
                None => None,
            }
        },
{
}

/// Every character of the basic plane can be written by its code in four hexadecimal digits;
/// codes of surrogates are no characters.
pub proof fn law_unicode_escapes(n: nat)
    requires
        n < 0x1_0000,
    ensures
        json::unicode_escape(
            seq![
                meta::hex_char(n / 4096),
                meta::hex_char(n / 256 % 16),
                meta::hex_char(n / 16 % 16),
                meta::hex_char(n % 16),
            ],
        ) == if 0xd800 <= n <= 0xdfff {
            None::<char>
        } else {
            Some(n as char)
        },
{
    let (a, b, c, d) = (n / 4096, n / 256 % 16, n / 16 % 16, n % 16);
    let four = seq![meta::hex_char(a), meta::hex_char(b), meta::hex_char(c), meta::hex_char(d)];
    assert(json::hex_value(meta::hex_char(a)) == Some(a));
    assert(json::hex_value(meta::hex_char(b)) == Some(b));
    assert(json::hex_value(meta::hex_char(c)) == Some(c));
    assert(json::hex_value(meta::hex_char(d)) == Some(d));
    let t3 = four.drop_last();
    let t2 = t3.drop_last();
    let t1 = t2.drop_last();
    assert(t1.drop_last() =~= Seq::<char>::empty());
    assert(json::hex_number(t1.drop_last()) == Some(0nat));
    assert(json::hex_number(t1) == Some(a));
    assert(json::hex_number(t2) == Some(16 * a + b));
    assert(json::hex_number(t3) == Some(16 * (16 * a + b) + c));
    assert(json::hex_number(four) == Some(16 * (16 * (16 * a + b) + c) + d));
    assert(16 * (16 * (16 * a + b) + c) + d == n);
}

} // verus!
