//! Command-line options: `--key value` pairs.
use crate::text;
use crate::text::{chars_of, parse_unsigned, same_text, string_of};
use vstd::prelude::*;

verus! {

/// An argument that names an option starts with two dashes.
pub open spec fn is_key(a: Seq<char>) -> bool {
    a.len() >= 2 && a[0] == '-' && a[1] == '-'
}

/// The options among the arguments. A key takes the argument behind it as its value,
/// unless that is a key too; then its value is `true`. Other arguments are left out.
pub open spec fn options(args: Seq<Seq<char>>) -> Seq<(Seq<char>, Seq<char>)>
    decreases args.len(),
{
    if args.len() == 0 {
        seq![]
    } else if !is_key(args[0]) {
        options(args.skip(1))
    } else if args.len() >= 2 && !is_key(args[1]) {
        seq![(args[0].skip(2), args[1])] + options(args.skip(2))
    } else {
        seq![(args[0].skip(2), "true"@)] + options(args.skip(1))
    }
}

/// The arguments that are neither a key nor the value of one.
pub open spec fn ignored(args: Seq<Seq<char>>) -> Seq<Seq<char>>
    decreases args.len(),
{
    if args.len() == 0 {
        seq![]
    } else if !is_key(args[0]) {
        seq![args[0]] + ignored(args.skip(1))
    } else if args.len() >= 2 && !is_key(args[1]) {
        ignored(args.skip(2))
    } else {
        ignored(args.skip(1))
    }
}

/// The characters of keys and values.
pub open spec fn pairs(opts: Seq<(String, String)>) -> Seq<(Seq<char>, Seq<char>)> {
    Seq::new(opts.len(), |i: int| (opts[i].0@, opts[i].1@))
}

fn starts_key(a: &str) -> (r: bool)
    ensures
        r == is_key(a@),
{
    let v = chars_of(a);
    v.len() >= 2 && v[0] == '-' && v[1] == '-'
}

/// The key that an argument names.
fn key_of(a: &str) -> (s: String)
    requires
        is_key(a@),
    ensures
        s@ == a@.skip(2),
{
    let v = chars_of(a);
    let s = string_of(vstd::slice::slice_subrange(v.as_slice(), 2, v.len()));
    assert(s@ =~= a@.skip(2));
    s
}

/// The options among the arguments, and the arguments that are none.
pub fn parse_opts(args: &[String]) -> (r: (Vec<(String, String)>, Vec<String>))
    ensures
        pairs(r.0@) == options(text::views(args@)),
        text::views(r.1@) == ignored(text::views(args@)),
{
    let ghost a = text::views(args@);
    let mut opts: Vec<(String, String)> = Vec::new();
    let mut rest: Vec<String> = Vec::new();
    let mut i: usize = 0;
    assert(a.skip(0) =~= a);
    assert(pairs(opts@) + options(a) =~= options(a));
    assert(text::views(rest@) + ignored(a) =~= ignored(a));
    while i < args.len()
        invariant
            i <= args.len(),
            a == text::views(args@),
            pairs(opts@) + options(a.skip(i as int)) == options(a),
            text::views(rest@) + ignored(a.skip(i as int)) == ignored(a),
        decreases args.len() - i,
    {
        let ghost left = a.skip(i as int);
        let ghost p0 = pairs(opts@);
        let ghost r0 = text::views(rest@);
        let arg = &args[i];
        assert(left[0] == arg@);
        if starts_key(arg.as_str()) {
            let key = key_of(arg.as_str());
            let ghost k = key@;
            if i + 1 < args.len() && !starts_key(args[i + 1].as_str()) {
                assert(left[1] == args@[i + 1]@);
                let value = args[i + 1].clone();
                let ghost v = value@;
                opts.push((key, value));
                assert(pairs(opts@) =~= p0.push((k, v)));
                assert(left.skip(2) =~= a.skip(i + 2));
                assert(p0 + (seq![(k, v)] + options(left.skip(2))) =~= pairs(opts@) + options(
                    left.skip(2),
                ));
                i += 2;
            } else {
                if i + 1 < args.len() {
                    assert(left[1] == args@[i + 1]@);
                }
                let value = string_of(chars_of("true").as_slice());
                let ghost v = value@;
                opts.push((key, value));
                assert(pairs(opts@) =~= p0.push((k, v)));
                assert(left.skip(1) =~= a.skip(i + 1));
                assert(p0 + (seq![(k, v)] + options(left.skip(1))) =~= pairs(opts@) + options(
                    left.skip(1),
                ));
                i += 1;
            }
        } else {
            rest.push(arg.clone());
            assert(text::views(rest@) =~= r0.push(arg@));
            assert(left.skip(1) =~= a.skip(i + 1));
            assert(r0 + (seq![arg@] + ignored(left.skip(1))) =~= text::views(rest@) + ignored(
                left.skip(1),
            ));
            i += 1;
        }
    }
    assert(a.skip(i as int).len() == 0);
    assert(pairs(opts@) + options(a.skip(i as int)) =~= pairs(opts@));
    assert(text::views(rest@) + ignored(a.skip(i as int)) =~= text::views(rest@));
    (opts, rest)
}

/// The value of a key: that of its first occurrence.
pub open spec fn value_of(opts: Seq<(Seq<char>, Seq<char>)>, key: Seq<char>) -> Option<Seq<char>>
    decreases opts.len(),
{
    if opts.len() == 0 {
        None
    } else if opts[0].0 == key {
        Some(opts[0].1)
    } else {
        value_of(opts.skip(1), key)
    }
}

/// The value of a key, where it is given.
pub fn get<'a>(opts: &'a [(String, String)], key: &str) -> (r: Option<&'a str>)
    ensures
        match r {
            Some(v) => value_of(pairs(opts@), key@) == Some(v@),
            None => value_of(pairs(opts@), key@) is None,
        },
{
    let ghost p = pairs(opts@);
    let mut i: usize = 0;
    assert(p.skip(0) =~= p);
    while i < opts.len()
        invariant
            i <= opts.len(),
            p == pairs(opts@),
            value_of(p.skip(i as int), key@) == value_of(p, key@),
        decreases opts.len() - i,
    {
        assert(p.skip(i as int)[0] == (opts@[i as int].0@, opts@[i as int].1@));
        if same_text(opts[i].0.as_str(), key) {
            return Some(opts[i].1.as_str());
        }
        assert(p.skip(i as int).skip(1) =~= p.skip(i + 1));
        i += 1;
    }
    None
}

/// A value that counts as yes.
pub open spec fn is_yes(v: Seq<char>) -> bool {
    v == "true"@ || v == "1"@ || v == "yes"@
}

/// The truth value of a key; `default` where it is not given.
pub open spec fn flag_of(opts: Seq<(Seq<char>, Seq<char>)>, key: Seq<char>, default: bool) -> bool {
    match value_of(opts, key) {
        Some(v) => is_yes(v),
        None => default,
    }
}

/// The truth value of a key.
pub fn get_bool(opts: &[(String, String)], key: &str, default: bool) -> (r: bool)
    ensures
        r == flag_of(pairs(opts@), key@, default),
{
    match get(opts, key) {
        Some(v) => same_text(v, "true") || same_text(v, "1") || same_text(v, "yes"),
        None => default,
    }
}

/// A value that could not be read.
#[derive(Debug)]
pub struct BadValue {
    pub key: String,
    pub value: String,
}

impl BadValue {
    /// What went wrong, in words.
    pub fn message(&self) -> (s: String)
        ensures
            s@ == "bad value for --"@ + self.key@ + ": "@ + self.value@,
    {
        let mut s = String::new();
        text::push_text(&mut s, "bad value for --");
        text::push_text(&mut s, self.key.as_str());
        text::push_text(&mut s, ": ");
        text::push_text(&mut s, self.value.as_str());
        s
    }
}

/// The text that a key gives; `default` where it is not given.
pub open spec fn text_or(
    opts: Seq<(Seq<char>, Seq<char>)>,
    key: Seq<char>,
    default: Seq<char>,
) -> Seq<char> {
    match value_of(opts, key) {
        Some(v) => v,
        None => default,
    }
}

/// The text that a key gives.
pub fn get_text(opts: &[(String, String)], key: &str, default: &str) -> (s: String)
    ensures
        s@ == text_or(pairs(opts@), key@, default@),
{
    match get(opts, key) {
        Some(v) => string_of(chars_of(v).as_slice()),
        None => string_of(chars_of(default).as_slice()),
    }
}

/// The largest number that a key can give: a seed has 64 bits, all others are sizes.
pub open spec fn limit(key: Seq<char>) -> nat {
    if key == "seed"@ {
        u64::MAX as nat
    } else {
        usize::MAX as nat
    }
}

/// How the value of a key is read.
#[derive(Clone, Copy)]
pub enum Reading {
    /// As a count.
    Count,
    /// As a single: the bit pattern of the single that the value writes, where it writes one.
    Single(Option<u32>),
}

/// The number that a key gives, where it gives one: a count, or the bit pattern of a single.
pub open spec fn given(
    opts: Seq<(Seq<char>, Seq<char>)>,
    key: Seq<char>,
    reading: Reading,
) -> Option<nat> {
    match value_of(opts, key) {
        Some(v) => match reading {
            Reading::Count => text::unsigned_in(v, limit(key)),
            Reading::Single(Some(bits)) => Some(bits as nat),
            Reading::Single(None) => None,
        },
        None => None,
    }
}

/// The count that a key gives; `default` where it is not given.
pub open spec fn number_or(
    opts: Seq<(Seq<char>, Seq<char>)>,
    key: Seq<char>,
    default: int,
) -> int {
    match given(opts, key, Reading::Count) {
        Some(n) => n as int,
        None => default,
    }
}

/// The bit pattern of the single that a key gives; `default` where it is not given.
pub open spec fn single_or(
    opts: Seq<(Seq<char>, Seq<char>)>,
    key: Seq<char>,
    bits: Option<u32>,
    default: u32,
) -> int {
    match given(opts, key, Reading::Single(bits)) {
        Some(n) => n as int,
        None => default as int,
    }
}

/// The key is not given, or gives a number.
pub open spec fn readable(
    opts: Seq<(Seq<char>, Seq<char>)>,
    key: Seq<char>,
    reading: Reading,
) -> bool {
    value_of(opts, key) is Some ==> given(opts, key, reading) is Some
}

/// All keys are readable.
pub open spec fn all_readable(
    opts: Seq<(Seq<char>, Seq<char>)>,
    keys: Seq<(Seq<char>, Reading)>,
) -> bool {
    forall|i: int| 0 <= i < keys.len() ==> readable(opts, (#[trigger] keys[i]).0, keys[i].1)
}

/// `e` tells of the first of the keys whose value is no number.
pub open spec fn is_first_bad(
    opts: Seq<(Seq<char>, Seq<char>)>,
    keys: Seq<(Seq<char>, Reading)>,
    e: BadValue,
) -> bool {
    exists|i: int|
        {
            &&& 0 <= i < keys.len()
            &&& !readable(opts, (#[trigger] keys[i]).0, keys[i].1)
            &&& all_readable(opts, keys.take(i))
            &&& e.key@ == keys[i].0
            &&& value_of(opts, keys[i].0) == Some(e.value@)
        }
}

/// The characters of keys, and how their values are read.
pub open spec fn key_views(keys: Seq<(&str, Reading)>) -> Seq<(Seq<char>, Reading)> {
    Seq::new(keys.len(), |i: int| (keys[i].0@, keys[i].1))
}

/// The number that a value writes.
fn read_value(key: &str, value: &str, reading: Reading) -> (r: Option<u64>)
    ensures
        match r {
            Some(n) => forall|o: Seq<(Seq<char>, Seq<char>)>|
                value_of(o, key@) == Some(value@) ==> #[trigger] given(o, key@, reading) == Some(
                    n as nat,
                ),
            None => forall|o: Seq<(Seq<char>, Seq<char>)>|
                value_of(o, key@) == Some(value@) ==> #[trigger] given(o, key@, reading) is None,
        },
{
    match reading {
        Reading::Count => {
            let max: u64 = if same_text(key, "seed") {
                u64::MAX
            } else {
                usize::MAX as u64
            };
            parse_unsigned(value, max)
        },
        Reading::Single(Some(bits)) => Some(bits as u64),
        Reading::Single(None) => None,
    }
}

/// Reads the numbers that keys give, in order.
pub fn get_numbers(opts: &[(String, String)], keys: &[(&str, Reading)]) -> (r: Result<
    Vec<Option<u64>>,
    BadValue,
>)
    ensures
        match r {
            Ok(v) => {
                &&& all_readable(pairs(opts@), key_views(keys@))
                &&& v@.len() == keys@.len()
                &&& forall|i: int|
                    0 <= i < keys@.len() ==> match #[trigger] v@[i] {
                        Some(n) => given(pairs(opts@), keys@[i].0@, keys@[i].1) == Some(n as nat),
                        None => given(pairs(opts@), keys@[i].0@, keys@[i].1) is None,
                    }
            },
            Err(e) => is_first_bad(pairs(opts@), key_views(keys@), e),
        },
{
    let ghost o = pairs(opts@);
    let ghost ks = key_views(keys@);
    let mut v: Vec<Option<u64>> = Vec::new();
    let mut i: usize = 0;
    while i < keys.len()
        invariant
            i <= keys.len(),
            o == pairs(opts@),
            ks == key_views(keys@),
            v@.len() == i,
            all_readable(o, ks.take(i as int)),
            forall|j: int|
                0 <= j < i ==> match #[trigger] v@[j] {
                    Some(n) => given(o, keys@[j].0@, keys@[j].1) == Some(n as nat),
                    None => given(o, keys@[j].0@, keys@[j].1) is None,
                },
        decreases keys.len() - i,
    {
        let key: &str = keys[i].0;
        let reading: Reading = keys[i].1;
        assert(ks[i as int] == (key@, reading));
        match get(opts, key) {
            Some(t) => {
                match read_value(key, t, reading) {
                    Some(n) => {
                        v.push(Some(n));
                    },
                    None => {
                        assert(given(o, key@, reading) is None);
                        return Err(
                            BadValue {
                                key: string_of(chars_of(key).as_slice()),
                                value: string_of(chars_of(t).as_slice()),
                            },
                        );
                    },
                }
            },
            None => {
                v.push(None);
            },
        }
        assert(readable(o, ks[i as int].0, ks[i as int].1));
        assert(ks.take(i + 1) =~= ks.take(i as int).push(ks[i as int]));
        i += 1;
    }
    assert(ks.take(i as int) =~= ks);
    Ok(v)
}

/// A number that was read as a size; `default` where there is none.
pub fn size_or(n: Option<u64>, default: usize) -> (r: usize)
    requires
        n matches Some(x) ==> x <= usize::MAX,
    ensures
        r == match n {
            Some(x) => x as usize,
            None => default,
        },
{
    match n {
        Some(x) => x as usize,
        None => default,
    }
}

/// A number that was read as the bit pattern of a single; `default` where there is none.
pub fn bits_or(n: Option<u64>, default: u32) -> (r: u32)
    requires
        n matches Some(x) ==> x <= u32::MAX,
    ensures
        r == match n {
            Some(x) => x as u32,
            None => default,
        },
{
    match n {
        Some(x) => x as u32,
        None => default,
    }
}

/// Arguments are read from left to right: where the second part starts with a key, the options
/// of both parts are those of the first and then those of the second.
pub proof fn law_options_in_order(a: Seq<Seq<char>>, b: Seq<Seq<char>>)
    requires
        b.len() == 0 || is_key(b[0]),
    ensures
        options(a + b) == options(a) + options(b),
        ignored(a + b) == ignored(a) + ignored(b),
    decreases a.len(),
{
    let all = a + b;
    if a.len() == 0 {
        assert(all =~= b);
        assert(options(a) + options(b) =~= options(b));
        assert(ignored(a) + ignored(b) =~= ignored(b));
    } else {
        assert(all[0] == a[0]);
        assert(all.skip(1) =~= a.skip(1) + b);
        law_options_in_order(a.skip(1), b);
        if !is_key(a[0]) {
            assert(seq![a[0]] + (ignored(a.skip(1)) + ignored(b)) =~= seq![a[0]] + ignored(
                a.skip(1),
            ) + ignored(b));
        } else if a.len() >= 2 && !is_key(a[1]) {
            assert(all[1] == a[1]);
            assert(all.skip(2) =~= a.skip(2) + b);
            law_options_in_order(a.skip(2), b);
            let head = seq![(a[0].skip(2), a[1])];
            assert(head + (options(a.skip(2)) + options(b)) =~= head + options(a.skip(2)) + options(
                b,
            ));
        } else {
            assert(all.len() >= 2 ==> all[1] == if a.len() >= 2 {
                a[1]
            } else {
                b[0]
            });
            let head = seq![(a[0].skip(2), "true"@)];
            assert(head + (options(a.skip(1)) + options(b)) =~= head + options(a.skip(1)) + options(
                b,
            ));
        }
    }
}

/// What one key, a key with its value, and any other argument stand for.
pub proof fn law_options_one_by_one(key: Seq<char>, v: Seq<char>)
    requires
        !is_key(v),
    ensures
        options(seq![seq!['-', '-'] + key, v]) == seq![(key, v)],
        ignored(seq![seq!['-', '-'] + key, v]) == Seq::<Seq<char>>::empty(),
        options(seq![seq!['-', '-'] + key]) == seq![(key, "true"@)],
        ignored(seq![seq!['-', '-'] + key]) == Seq::<Seq<char>>::empty(),
        options(seq![v]) == Seq::<(Seq<char>, Seq<char>)>::empty(),
        ignored(seq![v]) == seq![v],
{
    let k = seq!['-', '-'] + key;
    assert(k.skip(2) =~= key);
    let none = Seq::<Seq<char>>::empty();
    assert(options(none) =~= Seq::<(Seq<char>, Seq<char>)>::empty());
    assert(ignored(none) =~= none);
    assert(seq![k, v].skip(2) =~= none);
    assert(seq![k].skip(1) =~= none);
    assert(seq![v].skip(1) =~= none);
    assert(options(seq![k, v]) =~= seq![(key, v)]);
    assert(options(seq![k]) =~= seq![(key, "true"@)]);
    assert(ignored(seq![v]) =~= seq![v]);
}

/// The first value of a key counts: options behind others matter only for keys that these do
/// not give.
pub proof fn law_first_value_counts(
    a: Seq<(Seq<char>, Seq<char>)>,
    b: Seq<(Seq<char>, Seq<char>)>,
    key: Seq<char>,
)
    ensures
        value_of(a + b, key) == match value_of(a, key) {
            Some(v) => Some(v),
            None => value_of(b, key),
        },
        value_of(a, key) is Some <==> exists|i: int| 0 <= i < a.len() && (#[trigger] a[i]).0 == key,
    decreases a.len(),
{
    let all = a + b;
    if a.len() == 0 {
        assert(all =~= b);
    } else {
        assert(all[0] == a[0]);
        assert(all.skip(1) =~= a.skip(1) + b);
        law_first_value_counts(a.skip(1), b, key);
        if a[0].0 == key {
        } else {
            if value_of(a.skip(1), key) is Some {
                let i = choose|i: int|
                    0 <= i < a.skip(1).len() && (#[trigger] a.skip(1)[i]).0 == key;
                assert(a[i + 1].0 == key);
            }
            if exists|i: int| 0 <= i < a.len() && (#[trigger] a[i]).0 == key {
                let i = choose|i: int| 0 <= i < a.len() && (#[trigger] a[i]).0 == key;
                assert(a.skip(1)[i - 1].0 == key);
            }
        }
    }
}

} // verus!
