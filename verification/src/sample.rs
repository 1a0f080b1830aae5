//! Prompts for a trained model and the text of what it generates.
use crate::alphabet;
use crate::meta;
use crate::opts;
use crate::opts::{bits_or, get_numbers, get_text, size_or, BadValue, Reading};
use crate::text;
use crate::text::{chars_of, push_decimal, push_text, string_of, unescape};
use vstd::prelude::*;

verus! {

/// What to sample, from which checkpoint.
pub struct SampleArgs {
    pub checkpoint: String,
    pub start: String,
    pub num_samples: usize,
    pub max_new_tokens: usize,
    /// The bit pattern of the temperature, a single.
    pub temperature: u32,
    pub top_k: usize,
    pub seed: u64,
    pub threads: usize,
}

impl SampleArgs {
    /// What is sampled where nothing else is asked for.
    pub fn defaults(threads: usize) -> (a: Self)
        ensures
            a.checkpoint@ == "out-rs/ckpt.bin"@,
            a.start@ == "\n"@,
            a.num_samples == 3,
            a.max_new_tokens == 300,
            a.temperature == 0x3f4c_cccdu32,
            a.top_k == 40,
            a.seed == 1337,
            a.threads == threads,
    {
        SampleArgs {
            checkpoint: string_of(chars_of("out-rs/ckpt.bin").as_slice()),
            start: string_of(chars_of("\n").as_slice()),
            num_samples: 3,
            max_new_tokens: 300,
            temperature: 0x3f4c_cccd,
            top_k: 40,
            seed: 1337,
            threads,
        }
    }

    /// The arguments as options change them. `temperature` is the bit pattern of the single
    /// that the value of `--temperature` writes; `None` where it writes none, or is not given.
    /// Of several values that cannot be read, the error names that of the option that is read
    /// first.
    pub fn with_options(self, options: &[(String, String)], temperature: Option<u32>) -> (r: Result<
        Self,
        BadValue,
    >)
        ensures
            ({
                let o = opts::pairs(options@);
                match r {
                    Ok(a) => {
                        &&& opts::all_readable(o, sample_keys(temperature))
                        &&& a.checkpoint@ == opts::text_or(o, "checkpoint"@, self.checkpoint@)
                        &&& a.start@ == opts::text_or(o, "start"@, self.start@)
                        &&& a.num_samples == opts::number_or(
                            o,
                            "num-samples"@,
                            self.num_samples as int,
                        )
                        &&& a.max_new_tokens == opts::number_or(
                            o,
                            "max-new-tokens"@,
                            self.max_new_tokens as int,
                        )
                        &&& a.temperature == opts::single_or(
                            o,
                            "temperature"@,
                            temperature,
                            self.temperature,
                        )
                        &&& a.top_k == opts::number_or(o, "top-k"@, self.top_k as int)
                        &&& a.seed == opts::number_or(o, "seed"@, self.seed as int)
                        &&& a.threads == opts::number_or(o, "threads"@, self.threads as int)
                    },
                    Err(e) => opts::is_first_bad(o, sample_keys(temperature), e),
                }
            }),
    {
        let keys: [(&str, Reading); 6] = [
            ("num-samples", Reading::Count),
            ("max-new-tokens", Reading::Count),
            ("temperature", Reading::Single(temperature)),
            ("top-k", Reading::Count),
            ("seed", Reading::Count),
            ("threads", Reading::Count),
        ];
        assert(opts::key_views(keys@) =~= sample_keys(temperature));
        let v = match get_numbers(options, &keys) {
            Ok(v) => v,
            Err(e) => {
                return Err(e);
            },
        };
        proof {
            lemma_not_seed();
        }
        Ok(
            SampleArgs {
                checkpoint: get_text(options, "checkpoint", self.checkpoint.as_str()),
                start: get_text(options, "start", self.start.as_str()),
                num_samples: size_or(v[0], self.num_samples),
                max_new_tokens: size_or(v[1], self.max_new_tokens),
                temperature: bits_or(v[2], self.temperature),
                top_k: size_or(v[3], self.top_k),
                seed: match v[4] {
                    Some(n) => n,
                    None => self.seed,
                },
                threads: size_or(v[5], self.threads),
            },
        )
    }
}

/// The options that give numbers, in the order in which they are read.
pub open spec fn sample_keys(temperature: Option<u32>) -> Seq<(Seq<char>, Reading)> {
    seq![
        ("num-samples"@, Reading::Count),
        ("max-new-tokens"@, Reading::Count),
        ("temperature"@, Reading::Single(temperature)),
        ("top-k"@, Reading::Count),
        ("seed"@, Reading::Count),
        ("threads"@, Reading::Count),
    ]
}

/// The sizes among the options are no seeds.
proof fn lemma_not_seed()
    ensures
        "num-samples"@ != "seed"@,
        "max-new-tokens"@ != "seed"@,
        "top-k"@ != "seed"@,
        "threads"@ != "seed"@,
{
    reveal_strlit("num-samples");
    reveal_strlit("max-new-tokens");
    reveal_strlit("top-k");
    reveal_strlit("threads");
    reveal_strlit("seed");
    assert("seed"@.len() == 4);
    assert("num-samples"@.len() > 4);
    assert("max-new-tokens"@.len() > 4);
    assert("top-k"@.len() > 4);
    assert("threads"@.len() > 4);
}

/// The token whose text starts with `c`: the last of them where there are several.
pub open spec fn token_of(itos: Seq<Seq<char>>, c: char) -> Option<u32>
    decreases itos.len(),
{
    if itos.len() == 0 {
        None
    } else if itos.last().len() > 0 && itos.last()[0] == c {
        Some((itos.len() - 1) as u32)
    } else {
        token_of(itos.drop_last(), c)
    }
}

/// The tokens of the characters that have one.
pub open spec fn known(itos: Seq<Seq<char>>, s: Seq<char>) -> Seq<u32>
    decreases s.len(),
{
    if s.len() == 0 {
        seq![]
    } else {
        match token_of(itos, s.last()) {
            Some(id) => known(itos, s.drop_last()).push(id),
            None => known(itos, s.drop_last()),
        }
    }
}

/// The characters that have no token.
pub open spec fn unknown(itos: Seq<Seq<char>>, s: Seq<char>) -> Seq<char>
    decreases s.len(),
{
    if s.len() == 0 {
        seq![]
    } else if token_of(itos, s.last()) is None {
        unknown(itos, s.drop_last()).push(s.last())
    } else {
        unknown(itos, s.drop_last())
    }
}

/// The tokens of a prompt: token 0 where nothing of it is known.
pub open spec fn prompt_tokens(itos: Seq<Seq<char>>, start: Seq<char>) -> Seq<u32> {
    let ids = known(itos, text::unescaped(start));
    if ids.len() == 0 {
        seq![0u32]
    } else {
        ids
    }
}

/// The first character of each text.
fn first_chars(itos: &[String]) -> (v: Vec<Option<char>>)
    ensures
        v@.len() == itos@.len(),
        forall|i: int|
            0 <= i < v@.len() ==> #[trigger] v@[i] == (if itos@[i]@.len() > 0 {
                Some(itos@[i]@[0])
            } else {
                None
            }),
{
    let mut v: Vec<Option<char>> = Vec::new();
    let mut i: usize = 0;
    while i < itos.len()
        invariant
            i <= itos.len(),
            v@.len() == i,
            forall|j: int|
                0 <= j < v@.len() ==> #[trigger] v@[j] == (if itos@[j]@.len() > 0 {
                    Some(itos@[j]@[0])
                } else {
                    None
                }),
        decreases itos.len() - i,
    {
        let cs = chars_of(itos[i].as_str());
        v.push(
            if cs.len() > 0 {
                Some(cs[0])
            } else {
                None
            },
        );
        i += 1;
    }
    v
}

/// The token whose text starts with `c`, given the first characters of all texts.
fn find(firsts: &[Option<char>], c: char, Ghost(itos): Ghost<Seq<Seq<char>>>) -> (r: Option<u32>)
    requires
        firsts@.len() == itos.len(),
        forall|i: int|
            0 <= i < firsts@.len() ==> #[trigger] firsts@[i] == (if itos[i].len() > 0 {
                Some(itos[i][0])
            } else {
                None
            }),
    ensures
        r == token_of(itos, c),
{
    let mut i: usize = firsts.len();
    assert(itos.take(i as int) =~= itos);
    while i > 0
        invariant
            i <= firsts@.len(),
            firsts@.len() == itos.len(),
            forall|j: int|
                0 <= j < firsts@.len() ==> #[trigger] firsts@[j] == (if itos[j].len() > 0 {
                    Some(itos[j][0])
                } else {
                    None
                }),
            token_of(itos, c) == token_of(itos.take(i as int), c),
        decreases i,
    {
        i -= 1;
        let ghost t = itos.take(i + 1);
        assert(t.last() == itos[i as int]);
        assert(t.drop_last() =~= itos.take(i as int));
        match firsts[i] {
            Some(d) => {
                if d == c {
                    return Some(i as u32);
                }
            },
            None => {},
        }
    }
    None
}

/// The tokens of a prompt, with its escapes replaced, and the characters that were left out
/// because they have none.
pub fn encode_prompt(itos: &[String], start: &str) -> (r: (Vec<u32>, Vec<char>))
    ensures
        r.0@ == prompt_tokens(text::views(itos@), start@),
        r.1@ == unknown(text::views(itos@), text::unescaped(start@)),
{
    let ghost t = text::views(itos@);
    let plain = unescape(start);
    let s = chars_of(plain.as_str());
    let firsts = first_chars(itos);
    let mut ids: Vec<u32> = Vec::new();
    let mut left: Vec<char> = Vec::new();
    let mut i: usize = 0;
    assert(s@.take(0).len() == 0);
    while i < s.len()
        invariant
            i <= s.len(),
            t == text::views(itos@),
            firsts@.len() == t.len(),
            forall|j: int|
                0 <= j < firsts@.len() ==> #[trigger] firsts@[j] == (if t[j].len() > 0 {
                    Some(t[j][0])
                } else {
                    None
                }),
            ids@ == known(t, s@.take(i as int)),
            left@ == unknown(t, s@.take(i as int)),
        decreases s.len() - i,
    {
        let ghost next = s@.take(i + 1);
        assert(next.last() == s@[i as int]);
        assert(next.drop_last() =~= s@.take(i as int));
        match find(firsts.as_slice(), s[i], Ghost(t)) {
            Some(id) => {
                ids.push(id);
            },
            None => {
                left.push(s[i]);
            },
        }
        i += 1;
    }
    assert(s@.take(i as int) =~= s@);
    if ids.len() == 0 {
        ids.push(0);
        assert(ids@ =~= seq![0u32]);
    }
    (ids, left)
}

/// The text of a token; a question mark where there is none.
pub open spec fn token_text(itos: Seq<Seq<char>>, id: u32) -> Seq<char> {
    if id < itos.len() {
        itos[id as int]
    } else {
        seq!['?']
    }
}

/// The text of tokens.
pub open spec fn text_of(itos: Seq<Seq<char>>, ids: Seq<u32>) -> Seq<char>
    decreases ids.len(),
{
    if ids.len() == 0 {
        seq![]
    } else {
        text_of(itos, ids.drop_last()) + token_text(itos, ids.last())
    }
}

/// The text of tokens.
pub fn decode(itos: &[String], ids: &[u32]) -> (s: String)
    ensures
        s@ == text_of(text::views(itos@), ids@),
{
    let ghost t = text::views(itos@);
    let mut s = String::new();
    let mut i: usize = 0;
    assert(s@ =~= text_of(t, ids@.take(0)));
    while i < ids.len()
        invariant
            i <= ids.len(),
            t == text::views(itos@),
            s@ == text_of(t, ids@.take(i as int)),
        decreases ids.len() - i,
    {
        let ghost next = ids@.take(i + 1);
        assert(next.last() == ids@[i as int]);
        assert(next.drop_last() =~= ids@.take(i as int));
        let id: usize = ids[i] as usize;
        if id < itos.len() {
            push_text(&mut s, itos[id].as_str());
        } else {
            let ghost before = s@;
            s.push('?');
            assert(s@ =~= before + seq!['?']);
        }
        i += 1;
    }
    assert(ids@.take(i as int) =~= ids@);
    s
}

/// The numbers in decimal, with commas between them.
pub open spec fn listed(ids: Seq<u32>) -> Seq<char>
    decreases ids.len(),
{
    if ids.len() == 0 {
        seq![]
    } else if ids.len() == 1 {
        text::decimal(ids[0] as nat)
    } else {
        listed(ids.drop_last()) + ", "@ + text::decimal(ids.last() as nat)
    }
}

/// What is shown of generated tokens: their text, or their numbers in brackets where no
/// texts are known.
pub open spec fn shown(itos: Seq<Seq<char>>, ids: Seq<u32>) -> Seq<char> {
    if itos.len() == 0 {
        "["@ + listed(ids) + "]"@
    } else {
        text_of(itos, ids)
    }
}

/// What is shown of generated tokens.
pub fn show(itos: &[String], ids: &[u32]) -> (s: String)
    ensures
        s@ == shown(text::views(itos@), ids@),
{
    if itos.len() > 0 {
        return decode(itos, ids);
    }
    let mut s = String::new();
    push_text(&mut s, "[");
    let mut i: usize = 0;
    assert(s@ =~= "["@ + listed(ids@.take(0)));
    while i < ids.len()
        invariant
            i <= ids.len(),
            s@ == "["@ + listed(ids@.take(i as int)),
        decreases ids.len() - i,
    {
        let ghost next = ids@.take(i + 1);
        assert(next.last() == ids@[i as int]);
        assert(next.drop_last() =~= ids@.take(i as int));
        if i > 0 {
            push_text(&mut s, ", ");
        }
        push_decimal(&mut s, ids[i] as u64);
        assert(s@ =~= "["@ + listed(next));
        i += 1;
    }
    assert(ids@.take(i as int) =~= ids@);
    push_text(&mut s, "]");
    s
}

proof fn lemma_token_of_single(cs: Seq<char>, c: char)
    requires
        alphabet::increasing(cs),
        cs.contains(c),
        cs.len() <= 0x1_0000_0000,
    ensures
        token_of(meta::singles(cs), c) is Some,
        token_of(meta::singles(cs), c)->0 < cs.len(),
        cs[token_of(meta::singles(cs), c)->0 as int] == c,
    decreases cs.len(),
{
    let t = meta::singles(cs);
    assert(t.last() == seq![cs.last()]);
    if cs.last() != c {
        let rest = cs.drop_last();
        assert(t.drop_last() =~= meta::singles(rest));
        let j = choose|j: int| 0 <= j < cs.len() && cs[j] == c;
        assert(rest[j] == c);
        assert forall|i: int, j: int| 0 <= i < j < rest.len() implies #[trigger] rest[i]
            < #[trigger] rest[j] by {
            assert(cs[i] < cs[j]);
        }
        lemma_token_of_single(rest, c);
    }
}

/// Over an alphabet, a prompt of its letters comes back as the text of its tokens.
pub proof fn law_prompt_reads_back(cs: Seq<char>, s: Seq<char>)
    requires
        alphabet::increasing(cs),
        cs.len() <= 0x1_0000_0000,
        forall|i: int| 0 <= i < s.len() ==> cs.contains(#[trigger] s[i]),
    ensures
        known(meta::singles(cs), s).len() == s.len(),
        text_of(meta::singles(cs), known(meta::singles(cs), s)) == s,
        unknown(meta::singles(cs), s).len() == 0,
    decreases s.len(),
{
    let t = meta::singles(cs);
    if s.len() > 0 {
        let rest = s.drop_last();
        assert forall|i: int| 0 <= i < rest.len() implies cs.contains(#[trigger] rest[i]) by {
            assert(cs.contains(s[i]));
        }
        law_prompt_reads_back(cs, rest);
        lemma_token_of_single(cs, s.last());
        let id = token_of(t, s.last())->0;
        assert(known(t, s).drop_last() =~= known(t, rest));
        assert(known(t, s).last() == id);
        assert(token_text(t, id) == seq![s.last()]);
        assert(rest + seq![s.last()] =~= s);
    } else {
        assert(text_of(t, known(t, s)) =~= s);
    }
}

/// The token of a character is the last one whose text starts with it; a character that no
/// text starts with has none.
pub proof fn law_token_starts_with_character(itos: Seq<Seq<char>>, c: char)
    requires
        itos.len() <= u32::MAX,
    ensures
        match token_of(itos, c) {
            Some(id) => {
                &&& id < itos.len()
                &&& itos[id as int].len() > 0 && itos[id as int][0] == c
                &&& forall|j: int|
                    id < j < itos.len() ==> !((#[trigger] itos[j]).len() > 0 && itos[j][0] == c)
            },
            None => forall|j: int|
                0 <= j < itos.len() ==> !((#[trigger] itos[j]).len() > 0 && itos[j][0] == c),
        },
    decreases itos.len(),
{
    if itos.len() > 0 {
        let before = itos.drop_last();
        law_token_starts_with_character(before, c);
        assert forall|j: int| 0 <= j < before.len() implies #[trigger] itos[j] == before[j] by {}
    }
}

/// A text is encoded piece by piece: the tokens of two texts, one behind the other, are those
/// of the first and then those of the second; and likewise the characters left over. Each
/// character is in one of the two.
pub proof fn law_prompts_are_encoded_piecewise(itos: Seq<Seq<char>>, a: Seq<char>, b: Seq<char>)
    ensures
        known(itos, a + b) == known(itos, a) + known(itos, b),
        unknown(itos, a + b) == unknown(itos, a) + unknown(itos, b),
        known(itos, a).len() + unknown(itos, a).len() == a.len(),
    decreases a.len() + b.len(),
{
    let all = a + b;
    if b.len() == 0 {
        assert(all =~= a);
        assert(known(itos, a) + known(itos, b) =~= known(itos, a));
        assert(unknown(itos, a) + unknown(itos, b) =~= unknown(itos, a));
        if a.len() > 0 {
            law_prompts_are_encoded_piecewise(itos, a.drop_last(), b);
        }
    } else {
        law_prompts_are_encoded_piecewise(itos, a, b.drop_last());
        assert(all.drop_last() =~= a + b.drop_last());
        assert(all.last() == b.last());
        assert(known(itos, all) =~= known(itos, a) + known(itos, b));
        assert(unknown(itos, all) =~= unknown(itos, a) + unknown(itos, b));
    }
}

/// Tokens are decoded piece by piece, and a single token stands for its text.
pub proof fn law_tokens_are_decoded_piecewise(itos: Seq<Seq<char>>, a: Seq<u32>, b: Seq<u32>)
    ensures
        text_of(itos, a + b) == text_of(itos, a) + text_of(itos, b),
        a.len() == 1 && a[0] < itos.len() ==> text_of(itos, a) == itos[a[0] as int],
        a.len() == 1 && a[0] >= itos.len() ==> text_of(itos, a) == seq!['?'],
    decreases b.len(),
{
    let all = a + b;
    if a.len() == 1 {
        assert(a.drop_last() =~= Seq::<u32>::empty());
        assert(text_of(itos, a.drop_last()) =~= Seq::<char>::empty());
        assert(text_of(itos, a) =~= token_text(itos, a[0]));
    }
    if b.len() == 0 {
        assert(all =~= a);
        assert(text_of(itos, a) + text_of(itos, b) =~= text_of(itos, a));
    } else {
        law_tokens_are_decoded_piecewise(itos, a, b.drop_last());
        assert(all.drop_last() =~= a + b.drop_last());
        assert(all.last() == b.last());
        assert(text_of(itos, all) =~= text_of(itos, a) + text_of(itos, b));
    }
}

/// A prompt starts from the tokens of its text, escapes replaced; one of which nothing is known
/// starts from token 0.
pub proof fn law_prompts_are_never_empty(itos: Seq<Seq<char>>, start: Seq<char>)
    ensures
        prompt_tokens(itos, start).len() >= 1,
        prompt_tokens(itos, text::escaped(start)) == if known(itos, start).len() > 0 {
            known(itos, start)
        } else {
            seq![0u32]
        },
{
    text::law_unescape_undoes_escape(start);
}

/// Numbers are listed one by one, with a comma and a space between any two.
pub proof fn law_lists_join_with_commas(a: Seq<u32>, b: Seq<u32>)
    requires
        a.len() >= 1,
        b.len() >= 1,
    ensures
        listed(a + b) == listed(a) + ", "@ + listed(b),
        a.len() == 1 ==> listed(a) == text::decimal(a[0] as nat),
    decreases b.len(),
{
    let all = a + b;
    assert(all.last() == b.last());
    if b.len() == 1 {
        assert(all.drop_last() =~= a);
    } else {
        law_lists_join_with_commas(a, b.drop_last());
        assert(all.drop_last() =~= a + b.drop_last());
        assert(listed(all) =~= listed(a) + ", "@ + listed(b));
    }
}

} // verus!
