//! Character-level tokenizer: the vocabulary is the set of distinct characters
//! of a corpus, in increasing code-point order, and a token is the position of
//! its character in that vocabulary.
use std::collections::HashMap;
use vstd::prelude::*;

use crate::code_point::{code_point, lemma_code_point, lemma_code_point_injective};

verus! {

broadcast use vstd::std_specs::hash::group_hash_axioms, lemma_code_point, lemma_code_point_injective;

/// Every character of `v` occurs once, and `v` is in increasing code-point order.
pub open spec fn is_sorted_vocab(v: Seq<char>) -> bool {
    forall|i: int, j: int| 0 <= i < j < v.len() ==> code_point(v[i]) < code_point(v[j])
}

/// `v` is the vocabulary of `text`: its distinct characters, in increasing order.
pub open spec fn is_vocab_of(v: Seq<char>, text: Seq<char>) -> bool {
    &&& is_sorted_vocab(v)
    &&& v.to_set() == text.to_set()
}

/// The token of `c` in the vocabulary `v`, if `c` is in it.
pub open spec fn token_of(v: Seq<char>, c: char) -> Option<u32> {
    if v.contains(c) {
        Some(v.index_of(c) as u32)
    } else {
        None
    }
}

/// The tokens of `text`, in order; characters outside the vocabulary are skipped.
pub open spec fn encode_spec(v: Seq<char>, text: Seq<char>) -> Seq<u32> {
    text.filter_map(|c: char| token_of(v, c))
}

/// The characters that the tokens `ids` stand for.
pub open spec fn decode_spec(v: Seq<char>, ids: Seq<u32>) -> Seq<char> {
    ids.map_values(|id: u32| v[id as int])
}

/// Every token of `ids` names a character of the vocabulary `v`.
pub open spec fn ids_in_range(v: Seq<char>, ids: Seq<u32>) -> bool {
    forall|i: int| 0 <= i < ids.len() ==> (#[trigger] ids[i] as int) < v.len()
}

/// The characters of `text` that the vocabulary `v` holds, in order.
pub open spec fn known_chars(v: Seq<char>, text: Seq<char>) -> Seq<char> {
    text.filter(|c: char| v.contains(c))
}

proof fn lemma_code_at_least_index(v: Seq<char>, i: int)
    requires
        is_sorted_vocab(v),
        0 <= i < v.len(),
    ensures
        code_point(v[i]) >= i,
    decreases i,
{
    if i > 0 {
        lemma_code_at_least_index(v, i - 1);
    }
}

/// A sorted vocabulary holds at most one entry per Unicode scalar value.
proof fn lemma_vocab_len_bound(v: Seq<char>)
    requires
        is_sorted_vocab(v),
    ensures
        v.len() <= 0x110000,
{
    if v.len() > 0x110000 {
        lemma_code_at_least_index(v, 0x110000);
        let c = v[0x110000];
        assert(code_point(c) <= 0x10FFFF);
    }
}

/// In a sorted vocabulary the entry at `i` is found at `i`.
proof fn lemma_index_of_entry(v: Seq<char>, i: int)
    requires
        is_sorted_vocab(v),
        0 <= i < v.len(),
    ensures
        v.contains(v[i]),
        v.index_of(v[i]) == i,
        token_of(v, v[i]) == Some(i as u32),
{
    assert(v.contains(v[i]));
    let j = v.index_of(v[i]);
    assert(0 <= j < v.len() && v[j] == v[i]);
    if j < i {
        assert(code_point(v[j]) < code_point(v[i]));
    } else if j > i {
        assert(code_point(v[i]) < code_point(v[j]));
    }
    lemma_vocab_len_bound(v);
}

/// The code point of `c`.
fn char_code(c: char) -> (r: u32)
    ensures
        r == code_point(c),
{
    c as u32
}

/// Inserts `c` into the sorted vocabulary `chars`, unless it is there already.
fn insert_sorted(chars: &mut Vec<char>, c: char)
    requires
        is_sorted_vocab(old(chars)@),
    ensures
        is_sorted_vocab(final(chars)@),
        final(chars)@.to_set() == old(chars)@.to_set().insert(c),
{
    let ghost before = chars@;
    let mut p: usize = 0;
    while p < chars.len() && char_code(chars[p]) < char_code(c)
        invariant
            chars@ == before,
            is_sorted_vocab(before),
            p <= chars.len(),
            forall|j: int| 0 <= j < p ==> code_point(before[j]) < code_point(c),
        decreases chars.len() - p,
    {
        p = p + 1;
    }
    if p < chars.len() && char_code(chars[p]) == char_code(c) {
        assert(before[p as int] == c);
        assert(before.to_set().insert(c) =~= before.to_set()) by {
            assert(before.contains(c));
        }
        return;
    }
    chars.insert(p, c);
    let ghost after = chars@;
    assert(after == before.insert(p as int, c));
    assert forall|i: int, j: int| 0 <= i < j < after.len() implies code_point(after[i]) < code_point(
    after[j]) by {
        if p < before.len() {
            assert(code_point(before[p as int]) > code_point(c));
        }
        if j > p && i <= p {
            assert(code_point(before[j - 1]) >= code_point(before[p as int]) || j - 1 == p);
        }
    }
    assert(after.to_set() =~= before.to_set().insert(c)) by {
        assert forall|x: char| after.to_set().contains(x) implies before.to_set().insert(
            c,
        ).contains(x) by {
            let k = choose|k: int| 0 <= k < after.len() && after[k] == x;
            if k < p {
                assert(before[k] == x);
            } else if k > p {
                assert(before[k - 1] == x);
            }
        }
        assert forall|x: char| before.to_set().insert(c).contains(x) implies after.to_set().contains(
            x,
        ) by {
            if x == c {
                assert(after[p as int] == c);
            } else {
                let k = choose|k: int| 0 <= k < before.len() && before[k] == x;
                if k < p {
                    assert(after[k] == x);
                } else {
                    assert(after[k + 1] == x);
                }
            }
        }
    }
}

/// `String::push`: appends the character `c` at the end of `s`.
#[verifier::external_body]
fn push_char(s: &mut String, c: char)
    ensures
        final(s)@ == old(s)@.push(c),
{
    s.push(c)
}

/// Character-level tokenizer over the distinct characters of a corpus.
pub struct Tokenizer {
    chars: Vec<char>,
    stoi: HashMap<u32, u32>,
}

impl View for Tokenizer {
    type V = Seq<char>;

    /// The vocabulary, in token order.
    closed spec fn view(&self) -> Seq<char> {
        self.chars@
    }
}

impl Tokenizer {
    /// The vocabulary is sorted, and `stoi` maps the code point of each entry, and
    /// nothing else, to the entry's token.
    #[verifier::type_invariant]
    spec fn well_formed(self) -> bool {
        &&& is_sorted_vocab(self.chars@)
        &&& forall|i: int|
            0 <= i < self.chars@.len() ==> #[trigger] self.stoi@.contains_key(
                code_point(self.chars@[i]),
            ) && self.stoi@[code_point(self.chars@[i])] == i as u32
        &&& forall|k: u32| #[trigger]
            self.stoi@.contains_key(k) ==> exists|i: int|
                0 <= i < self.chars@.len() && code_point(self.chars@[i]) == k
    }

    /// Builds the vocabulary of `text`: its distinct characters in increasing order.
    pub fn from_corpus(text: &str) -> (tok: Self)
        ensures
            is_vocab_of(tok@, text@),
    {
        let mut chars: Vec<char> = Vec::new();
        for c in it: text.chars()
            invariant
                it.seq() == text@,
                is_sorted_vocab(chars@),
                chars@.to_set() == text@.take(it.index()).to_set(),
        {
            let ghost k = it.index();
            insert_sorted(&mut chars, c);
            proof {
                assert(text@.take(k + 1) =~= text@.take(k).push(c));
                text@.take(k).lemma_push_to_set_commute(c);
            }
        }
        proof {
            assert(text@.take(text@.len() as int) =~= text@);
            lemma_vocab_len_bound(chars@);
        }
        let mut stoi: HashMap<u32, u32> = HashMap::new();
        let mut i: usize = 0;
        while i < chars.len()
            invariant
                i <= chars.len(),
                chars@.len() <= 0x110000,
                is_sorted_vocab(chars@),
                forall|j: int|
                    0 <= j < i ==> #[trigger] stoi@.contains_key(code_point(chars@[j])) && stoi@[code_point(chars@[j])] == j as u32,
                forall|k: u32| #[trigger]
                    stoi@.contains_key(k) ==> exists|j: int| 0 <= j < i && code_point(chars@[j]) == k,
            decreases chars.len() - i,
        {
            let ghost old_stoi = stoi@;
            stoi.insert(char_code(chars[i]), i as u32);
            assert forall|j: int| 0 <= j < i + 1 implies #[trigger] stoi@.contains_key(
                code_point(chars@[j]),
            ) && stoi@[code_point(chars@[j])] == j as u32 by {
                if j < i {
                    assert(code_point(chars@[j]) < code_point(chars@[i as int]));
                }
            }
            assert forall|k: u32| #[trigger] stoi@.contains_key(k) implies exists|j: int|
                0 <= j < i + 1 && code_point(chars@[j]) == k by {
                if k != code_point(chars@[i as int]) {
                    assert(old_stoi.contains_key(k));
                }
            }
            i = i + 1;
        }
        Tokenizer { chars, stoi }
    }

    /// The tokens of the characters of `text` that are in the vocabulary, in order;
    /// any other character is skipped.
    pub fn encode(&self, text: &str) -> (ids: Vec<u32>)
        ensures
            ids@ == encode_spec(self@, text@),
            ids_in_range(self@, ids@),
    {
        proof {
            use_type_invariant(self);
            lemma_tokens_in_range(self.chars@, text@);
        }
        let mut ids: Vec<u32> = Vec::new();
        for c in it: text.chars()
            invariant
                it.seq() == text@,
                is_sorted_vocab(self.chars@),
                forall|i: int|
                    0 <= i < self.chars@.len() ==> #[trigger] self.stoi@.contains_key(
                        code_point(self.chars@[i]),
                    ) && self.stoi@[code_point(self.chars@[i])] == i as u32,
                forall|k: u32| #[trigger]
                    self.stoi@.contains_key(k) ==> exists|i: int|
                        0 <= i < self.chars@.len() && code_point(self.chars@[i]) == k,
                ids@ == encode_spec(self@, text@.take(it.index())),
        {
            let ghost k = it.index();
            let ghost v = self.chars@;
            let key = char_code(c);
            match self.stoi.get(&key) {
                Some(id) => {
                    ids.push(*id);
                    proof {
                        let i = choose|i: int| 0 <= i < v.len() && code_point(v[i]) == key;
                        lemma_index_of_entry(v, i);
                        assert(token_of(v, c) == Some(*id));
                    }
                },
                None => {
                    proof {
                        if v.contains(c) {
                            let i = choose|i: int| 0 <= i < v.len() && v[i] == c;
                            assert(self.stoi@.contains_key(code_point(v[i])));
                        }
                        assert(token_of(v, c) == None::<u32>);
                    }
                },
            }
            proof {
                let t = text@.take(k + 1);
                assert(t.drop_last() =~= text@.take(k));
                assert(t.last() == c);
            }
        }
        proof {
            assert(text@.take(text@.len() as int) =~= text@);
        }
        ids
    }

    /// The characters that the tokens `ids` stand for.
    pub fn decode(&self, ids: &[u32]) -> (text: String)
        requires
            ids_in_range(self@, ids@),
        ensures
            text@ == decode_spec(self@, ids@),
    {
        let mut text = String::new();
        let mut i: usize = 0;
        while i < ids.len()
            invariant
                i <= ids@.len(),
                ids_in_range(self@, ids@),
                text@ == decode_spec(self@, ids@.take(i as int)),
            decreases ids.len() - i,
        {
            let id = ids[i];
            assert((id as int) < self@.len());
            push_char(&mut text, self.chars[id as usize]);
            assert(decode_spec(self@, ids@.take(i + 1)) =~= decode_spec(self@, ids@.take(i as int)).push(
                self@[id as int],
            ));
            i = i + 1;
        }
        assert(ids@.take(ids@.len() as int) =~= ids@);
        text
    }

    /// Number of distinct characters in the vocabulary.
    pub fn vocab_size(&self) -> (n: usize)
        ensures
            n == self@.len(),
    {
        self.chars.len()
    }
}

/// Decoding the tokens of a text gives back the characters of that text that the
/// vocabulary holds, in order; every token names a character of the vocabulary.
pub proof fn lemma_decode_encode(v: Seq<char>, text: Seq<char>)
    requires
        is_sorted_vocab(v),
    ensures
        ids_in_range(v, encode_spec(v, text)),
        decode_spec(v, encode_spec(v, text)) == known_chars(v, text),
    decreases text.len(),
{
    reveal(Seq::filter);
    if text.len() > 0 {
        let rest = text.drop_last();
        let c = text.last();
        lemma_decode_encode(v, rest);
        let e = encode_spec(v, rest);
        assert(known_chars(v, text) == if v.contains(c) {
            known_chars(v, rest).push(c)
        } else {
            known_chars(v, rest)
        });
        if v.contains(c) {
            let i = v.index_of(c);
            lemma_index_of_entry(v, i);
            lemma_vocab_len_bound(v);
            assert((i as u32) as int == i);
            assert(encode_spec(v, text) == e + seq![i as u32]);
            assert(decode_spec(v, e + seq![i as u32]) =~= decode_spec(v, e).push(c));
        } else {
            assert(encode_spec(v, text) == e);
        }
    } else {
        assert(decode_spec(v, encode_spec(v, text)) =~= known_chars(v, text));
    }
}

/// Every token of a text names a character of the vocabulary.
pub proof fn lemma_tokens_in_range(v: Seq<char>, text: Seq<char>)
    requires
        is_sorted_vocab(v),
    ensures
        ids_in_range(v, encode_spec(v, text)),
{
    lemma_decode_encode(v, text);
}

/// A text is the filter of itself when every one of its characters passes.
proof fn lemma_known_chars_all(v: Seq<char>, text: Seq<char>)
    requires
        forall|i: int| 0 <= i < text.len() ==> v.contains(#[trigger] text[i]),
    ensures
        known_chars(v, text) == text,
    decreases text.len(),
{
    reveal(Seq::filter);
    if text.len() > 0 {
        let rest = text.drop_last();
        assert forall|i: int| 0 <= i < rest.len() implies v.contains(#[trigger] rest[i]) by {
            assert(rest[i] == text[i]);
        }
        lemma_known_chars_all(v, rest);
        assert(v.contains(text[text.len() - 1]));
        assert(rest.push(text.last()) =~= text);
    }
}

/// Every text made of characters of the corpus comes back unchanged from
/// `decode(encode(text))`; the corpus itself is one such text.
pub proof fn lemma_round_trip(v: Seq<char>, corpus: Seq<char>, text: Seq<char>)
    requires
        is_vocab_of(v, corpus),
        text.to_set().subset_of(corpus.to_set()),
    ensures
        decode_spec(v, encode_spec(v, text)) == text,
{
    assert forall|i: int| 0 <= i < text.len() implies v.contains(#[trigger] text[i]) by {
        assert(text.to_set().contains(text[i]));
        assert(v.to_set().contains(text[i]));
    }
    lemma_known_chars_all(v, text);
    lemma_decode_encode(v, text);
}

/// Encoding the characters that valid tokens stand for gives back those tokens.
pub proof fn lemma_encode_decode(v: Seq<char>, ids: Seq<u32>)
    requires
        is_sorted_vocab(v),
        ids_in_range(v, ids),
    ensures
        encode_spec(v, decode_spec(v, ids)) == ids,
    decreases ids.len(),
{
    if ids.len() > 0 {
        let rest = ids.drop_last();
        let id = ids.last();
        assert(ids_in_range(v, rest)) by {
            assert forall|i: int| 0 <= i < rest.len() implies (#[trigger] rest[i] as int) < v.len() by {
                assert(rest[i] == ids[i]);
            }
        }
        lemma_encode_decode(v, rest);
        assert((ids[ids.len() - 1] as int) < v.len());
        lemma_index_of_entry(v, id as int);
        let d = decode_spec(v, ids);
        assert(d.drop_last() =~= decode_spec(v, rest));
        assert(d.last() == v[id as int]);
        assert(encode_spec(v, d) == encode_spec(v, d.drop_last()) + seq![id]);
        assert(rest + seq![id] =~= ids);
    } else {
        assert(encode_spec(v, decode_spec(v, ids)) =~= ids);
    }
}

/// The vocabulary has exactly as many entries as the corpus has distinct characters.
pub proof fn lemma_vocab_size(v: Seq<char>, corpus: Seq<char>)
    requires
        is_vocab_of(v, corpus),
    ensures
        v.len() == corpus.to_set().len(),
{
    assert(v.no_duplicates()) by {
        assert forall|i: int, j: int| 0 <= i < v.len() && 0 <= j < v.len() && i != j implies v[i]
            != v[j] by {
            if i < j {
                assert(code_point(v[i]) < code_point(v[j]));
            } else {
                assert(code_point(v[j]) < code_point(v[i]));
            }
        }
    }
    v.unique_seq_to_set();
}

/// The last entry of a sorted vocabulary has the largest code point of its set.
proof fn lemma_last_is_max(v: Seq<char>, x: char)
    requires
        is_sorted_vocab(v),
        v.len() > 0,
        v.to_set().contains(x),
    ensures
        code_point(x) <= code_point(v.last()),
{
    let i = choose|i: int| 0 <= i < v.len() && v[i] == x;
    if i < v.len() - 1 {
        assert(code_point(v[i]) < code_point(v[v.len() - 1]));
    }
}

/// Two sorted vocabularies with the same characters are the same; so the
/// vocabulary of a corpus is determined by the corpus.
pub proof fn lemma_vocab_unique(v: Seq<char>, w: Seq<char>)
    requires
        is_sorted_vocab(v),
        is_sorted_vocab(w),
        v.to_set() == w.to_set(),
    ensures
        v == w,
    decreases v.len(),
{
    if v.len() == 0 {
        if w.len() > 0 {
            assert(w.to_set().contains(w[0]));
        }
        assert(v =~= w);
    } else {
        if w.len() == 0 {
            assert(v.to_set().contains(v[0]));
        }
        assert(v.to_set().contains(v.last()));
        assert(w.to_set().contains(w.last()));
        lemma_last_is_max(v, w.last());
        lemma_last_is_max(w, v.last());
        let m = v.last();
        assert(m == w.last());
        let vr = v.drop_last();
        let wr = w.drop_last();
        assert(vr.to_set() =~= v.to_set().remove(m)) by {
            assert forall|x: char| vr.to_set().contains(x) implies v.to_set().remove(m).contains(x) by {
                let i = choose|i: int| 0 <= i < vr.len() && vr[i] == x;
                assert(v[i] == x);
                assert(code_point(v[i]) < code_point(v[v.len() - 1]));
            }
            assert forall|x: char| v.to_set().remove(m).contains(x) implies vr.to_set().contains(x) by {
                let i = choose|i: int| 0 <= i < v.len() && v[i] == x;
                assert(vr[i] == x);
            }
        }
        assert(wr.to_set() =~= w.to_set().remove(m)) by {
            assert forall|x: char| wr.to_set().contains(x) implies w.to_set().remove(m).contains(x) by {
                let i = choose|i: int| 0 <= i < wr.len() && wr[i] == x;
                assert(w[i] == x);
                assert(code_point(w[i]) < code_point(w[w.len() - 1]));
            }
            assert forall|x: char| w.to_set().remove(m).contains(x) implies wr.to_set().contains(x) by {
                let i = choose|i: int| 0 <= i < w.len() && w[i] == x;
                assert(wr[i] == x);
            }
        }
        lemma_vocab_unique(vr, wr);
        assert(vr.push(m) =~= v);
        assert(wr.push(m) =~= w);
    }
}

} // verus!
