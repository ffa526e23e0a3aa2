//! The dictionary: an ordered list of words of one character length.
use vstd::prelude::*;
use vstd::slice::slice_subrange;
use vstd::std_specs::iter::IteratorSpec;
use vstd::string::StrSliceExecFns;

use crate::error::{Error, FormatError};

verus! {

/// The pieces of `s` between newline characters, in order. There is always
/// at least one piece: the text after the last newline, possibly empty.
pub open spec fn split_newlines(s: Seq<char>) -> Seq<Seq<char>>
    decreases s.len(),
{
    if s.len() == 0 {
        seq![Seq::<char>::empty()]
    } else {
        let prev = split_newlines(s.drop_last());
        if s.last() == '\n' {
            prev.push(Seq::<char>::empty())
        } else {
            prev.update(prev.len() - 1, prev.last().push(s.last()))
        }
    }
}

/// A line without the carriage return that may end it.
pub open spec fn strip_cr(l: Seq<char>) -> Seq<char> {
    if l.len() > 0 && l.last() == '\r' {
        l.drop_last()
    } else {
        l
    }
}

/// The lines of a text: each newline-terminated piece without its `\n` or
/// `\r\n` ending, then the unterminated rest of the text when it is not empty.
pub open spec fn lines_of(s: Seq<char>) -> Seq<Seq<char>> {
    let p = split_newlines(s);
    let body = p.drop_last().map_values(|l: Seq<char>| strip_cr(l));
    if p.last().len() == 0 {
        body
    } else {
        body.push(p.last())
    }
}

/// Every line has the first line's length.
pub open spec fn same_lengths(ls: Seq<Seq<char>>) -> bool {
    forall|i: int| 0 <= i < ls.len() ==> #[trigger] ls[i].len() == ls[0].len()
}

/// Line `i` is the first one whose length differs from the first line's.
pub open spec fn first_mismatch(ls: Seq<Seq<char>>, i: int) -> bool {
    &&& 0 < i < ls.len()
    &&& ls[i].len() != ls[0].len()
    &&& forall|j: int| 0 <= j < i ==> #[trigger] ls[j].len() == ls[0].len()
}

/// The pieces of a prefix agree with those of the whole text, but for the last
/// piece of the prefix, which the rest of the text may extend.
proof fn lemma_split_prefix(s: Seq<char>, m: int)
    requires
        0 <= m <= s.len(),
    ensures
        split_newlines(s.take(m)).len() <= split_newlines(s).len(),
        forall|j: int|
            0 <= j < split_newlines(s.take(m)).len() - 1 ==> #[trigger] split_newlines(s.take(m))[j]
                == split_newlines(s)[j],
    decreases s.len(),
{
    if m < s.len() {
        let t = s.drop_last();
        assert(t.take(m) =~= s.take(m));
        lemma_split_prefix(t, m);
    } else {
        assert(s.take(m) =~= s);
    }
}

/// The lines of a text that start with given pieces of it.
proof fn lemma_lines_prefix(s: Seq<char>, pre: Seq<Seq<char>>)
    requires
        pre.len() <= split_newlines(s).len(),
        forall|j: int| 0 <= j < pre.len() ==> #[trigger] pre[j] == split_newlines(s)[j],
        pre.len() == split_newlines(s).len() ==> pre.last().len() > 0,
    ensures
        pre.len() <= lines_of(s).len(),
        forall|j: int|
            0 <= j < pre.len() && j < split_newlines(s).len() - 1 ==> #[trigger] lines_of(s)[j]
                == strip_cr(pre[j]),
        0 < pre.len() == split_newlines(s).len() ==> lines_of(s)[pre.len() - 1] == pre.last(),
{
}

/// Number of positions below `n` where `a` and `b` hold different characters.
pub open spec fn mismatches_below(a: Seq<char>, b: Seq<char>, n: nat) -> nat
    decreases n,
{
    if n == 0 {
        0
    } else {
        mismatches_below(a, b, (n - 1) as nat) + if a[n - 1] != b[n - 1] {
            1nat
        } else {
            0nat
        }
    }
}

/// Number of positions, over the shorter of the two words, where they differ.
pub open spec fn hamming(a: Seq<char>, b: Seq<char>) -> nat {
    mismatches_below(a, b, if a.len() <= b.len() { a.len() } else { b.len() })
}

/// `a` and `b` have one length and differ at position `p` and nowhere else.
pub open spec fn differ_only_at(a: Seq<char>, b: Seq<char>, p: int) -> bool {
    &&& a.len() == b.len()
    &&& 0 <= p < a.len()
    &&& a[p] != b[p]
    &&& forall|q: int| 0 <= q < a.len() && q != p ==> #[trigger] a[q] == b[q]
}

/// `a` and `b` are one substitution apart.
pub open spec fn one_apart(a: Seq<char>, b: Seq<char>) -> bool {
    exists|p: int| differ_only_at(a, b, p)
}

/// A substitution changes the distance to any word of the same length by at
/// most one.
pub proof fn lemma_hamming_one_apart(g: Seq<char>, a: Seq<char>, b: Seq<char>)
    requires
        one_apart(a, b),
        g.len() == a.len(),
    ensures
        hamming(g, a) <= hamming(g, b) + 1,
        hamming(g, b) <= hamming(g, a) + 1,
{
    let p = choose|p: int| differ_only_at(a, b, p);
    lemma_mismatches_one_apart(g, a, b, p, a.len());
}

proof fn lemma_mismatches_one_apart(g: Seq<char>, a: Seq<char>, b: Seq<char>, p: int, n: nat)
    requires
        differ_only_at(a, b, p),
        g.len() == a.len(),
        n <= a.len(),
    ensures
        mismatches_below(g, a, n) <= mismatches_below(g, b, n) + if p < n {
            1nat
        } else {
            0nat
        },
        mismatches_below(g, b, n) <= mismatches_below(g, a, n) + if p < n {
            1nat
        } else {
            0nat
        },
    decreases n,
{
    if n > 0 {
        lemma_mismatches_one_apart(g, a, b, p, (n - 1) as nat);
    }
}

/// Counts the positions, over the shorter word, where `a` and `b` differ.
pub fn mismatches(a: &Vec<char>, b: &Vec<char>) -> (r: usize)
    ensures
        r == hamming(a@, b@),
{
    let n = if a.len() <= b.len() {
        a.len()
    } else {
        b.len()
    };
    let mut r: usize = 0;
    let mut i: usize = 0;
    while i < n
        invariant
            n <= a.len(),
            n <= b.len(),
            n == if a@.len() <= b@.len() { a@.len() } else { b@.len() },
            i <= n,
            r == mismatches_below(a@, b@, i as nat),
            r <= i,
        decreases n - i,
    {
        if a[i] != b[i] {
            r = r + 1;
        }
        i = i + 1;
    }
    r
}

/// The words listed from a dictionary build a dictionary again, of the same
/// words: the list is not empty and its words have one length.
pub proof fn lemma_words_round_trip(d: &Dict, listed: Seq<String>)
    requires
        d.wf(),
        d@.len() > 0,
        texts(listed) == d@,
    ensures
        listed.len() > 0,
        same_lengths(texts(listed)),
{
    assert(texts(listed).len() == listed.len());
}

/// Relies on `String`'s `FromIterator<char>`: collecting characters gives the
/// string of exactly those characters, in order.
#[verifier::external_body]
fn collect_string(cs: &[char]) -> (r: String)
    ensures
        r@ == cs@,
{
    cs.iter().collect()
}

/// The characters of `s`, in order.
pub fn chars_of(s: &str) -> (r: Vec<char>)
    ensures
        r@ == s@,
{
    broadcast use vstd::string::group_string_axioms;

    let mut r: Vec<char> = Vec::new();
    for c in it: s.chars()
        invariant
            r@ == it.seq().take(it.index() as int),
    {
        r.push(c);
    }
    r
}

/// The bundled word list: four-letter Russian words, one per line.
pub const DEFAULT_WORDS: &'static str = "рожа\n\
роза\n\
поза\n\
пора\n\
пара\n\
парс\n\
паюс\n\
плюс\n\
плес\n\
плед\n\
след\n\
слет\n\
счет\n\
учет\n\
коза\n\
лоза\n\
доза\n\
поле\n\
роль\n\
соль\n\
боль\n\
моль\n\
рожь\n\
кора\n\
нора\n\
гора\n\
пола\n\
пери\n\
мера\n\
вера\n\
сера\n\
дело\n\
тело\n\
село\n\
лето\n\
мето\n\
рука\n\
мука\n\
сука\n\
река\n\
рыба\n\
губа\n\
зуба\n\
зима\n\
кино\n\
вино\n\
сено\n\
нота\n\
рота\n\
сода\n\
вода\n\
кода\n\
мода\n\
пост\n\
мост\n\
лист\n\
тост\n\
сила\n\
пила\n\
вилы\n";

/// `r` is what building a dictionary from `text` gives: the dictionary of its
/// lines when there is at least one and all have the first line's length;
/// otherwise the error that names the first line of another length, or says
/// that there is no line.
pub open spec fn created(text: Seq<char>, r: Result<Dict, Error>) -> bool {
    match r {
        Ok(d) => {
            &&& d.wf()
            &&& d@ == lines_of(text)
            &&& lines_of(text).len() > 0
            &&& same_lengths(lines_of(text))
            &&& d.spec_word_len() == lines_of(text)[0].len()
        },
        Err(Error::Format(FormatError::Empty)) => lines_of(text).len() == 0,
        Err(Error::Format(FormatError::LengthMismatch { word, expected, found })) => {
            exists|i: int|
                {
                    &&& first_mismatch(lines_of(text), i)
                    &&& word@ == lines_of(text)[i]
                    &&& expected == lines_of(text)[0].len()
                    &&& found == lines_of(text)[i].len()
                }
        },
        Err(_) => false,
    }
}

/// The texts of a list of strings.
pub open spec fn texts(v: Seq<String>) -> Seq<Seq<char>> {
    v.map_values(|w: String| w@)
}

/// A dictionary: words of one character length, each identified by its
/// position.
pub struct Dict {
    words: Vec<String>,
    word_len: usize,
}

impl View for Dict {
    type V = Seq<Seq<char>>;

    closed spec fn view(&self) -> Seq<Seq<char>> {
        self.words@.map_values(|w: String| w@)
    }
}

impl Dict {
    /// The character length shared by all words.
    pub closed spec fn spec_word_len(&self) -> nat {
        self.word_len as nat
    }

    /// Every word has the dictionary's word length.
    pub open spec fn wf(&self) -> bool {
        forall|i: int| 0 <= i < self@.len() ==> #[trigger] self@[i].len() == self.spec_word_len()
    }

    /// The character length shared by all words.
    pub fn word_len(&self) -> (r: usize)
        ensures
            r == self.spec_word_len(),
    {
        self.word_len
    }

    /// Number of words.
    pub fn len(&self) -> (r: usize)
        ensures
            r == self@.len(),
    {
        self.words.len()
    }

    /// The word with id `id`.
    pub fn get(&self, id: u32) -> (r: &str)
        requires
            id < self@.len(),
        ensures
            r@ == self@[id as int],
    {
        self.words[id as usize].as_str()
    }

    /// All words, in id order.
    pub fn words(&self) -> (r: &Vec<String>)
        ensures
            r@.len() == self@.len(),
            forall|i: int| 0 <= i < r@.len() ==> #[trigger] r@[i]@ == self@[i],
    {
        &self.words
    }

    /// The characters of the word with id `id`.
    pub fn chars(&self, id: u32) -> (r: Vec<char>)
        requires
            id < self@.len(),
        ensures
            r@ == self@[id as int],
    {
        chars_of(self.words[id as usize].as_str())
    }

    /// Number of positions where `end` and the word with id `n` differ: a lower
    /// bound on the ladder length between them.
    pub fn heuristic(&self, end: &str, n: u32) -> (r: usize)
        requires
            n < self@.len(),
        ensures
            r == hamming(end@, self@[n as int]),
    {
        let a = chars_of(end);
        let b = self.chars(n);
        mismatches(&a, &b)
    }

    /// Builds the dictionary of the bundled word list.
    pub fn create_default() -> (r: Result<Dict, Error>)
        ensures
            created(DEFAULT_WORDS@, r),
    {
        Dict::create(DEFAULT_WORDS)
    }

    /// All words, in id order.
    pub fn iter(&self) -> (r: std::slice::Iter<'_, String>)
        ensures
            r.remaining().len() == self@.len(),
            forall|i: int| 0 <= i < self@.len() ==> (#[trigger] r.remaining()[i])@ == self@[i],
    {
        self.words.as_slice().iter()
    }

    /// The dictionary of a list of words, which must be non-empty and of one
    /// character length.
    pub fn from_words(words: Vec<String>) -> (r: Result<Dict, Error>)
        ensures
            match r {
                Ok(d) => {
                    &&& d.wf()
                    &&& d@ == texts(words@)
                    &&& words@.len() > 0
                    &&& same_lengths(texts(words@))
                },
                Err(Error::Format(FormatError::Empty)) => words@.len() == 0,
                Err(Error::Format(FormatError::LengthMismatch { word, expected, found })) => {
                    exists|i: int|
                        {
                            &&& first_mismatch(texts(words@), i)
                            &&& word@ == texts(words@)[i]
                            &&& expected == texts(words@)[0].len()
                            &&& found == texts(words@)[i].len()
                        }
                },
                Err(_) => false,
            },
    {
        let ghost ws = texts(words@);
        if words.len() == 0 {
            return Err(Error::Format(FormatError::Empty));
        }
        let word_len = words[0].as_str().unicode_len();
        let mut i: usize = 1;
        while i < words.len()
            invariant
                ws == texts(words@),
                0 < i <= words@.len(),
                word_len == ws[0].len(),
                forall|j: int| 0 <= j < i ==> #[trigger] ws[j].len() == ws[0].len(),
            decreases words@.len() - i,
        {
            let len = words[i].as_str().unicode_len();
            if len != word_len {
                let word = words[i].clone();
                proof {
                    assert(first_mismatch(ws, i as int));
                }
                return Err(
                    Error::Format(FormatError::LengthMismatch { word, expected: word_len, found: len }),
                );
            }
            i = i + 1;
        }
        let d = Dict { words, word_len };
        assert(d@ =~= ws);
        Ok(d)
    }

    /// The words, in id order.
    pub fn into_words(self) -> (r: Vec<String>)
        ensures
            texts(r@) == self@,
    {
        self.words
    }

    /// Builds the dictionary of the lines of `word_list`. The first line fixes
    /// the word length; an empty text, or a line of another length, is refused.
    pub fn create(word_list: &str) -> (r: Result<Dict, Error>)
        ensures
            created(word_list@, r),
    {
        let cs = chars_of(word_list);
        let n = cs.len();
        let ghost s = cs@;
        let mut words: Vec<String> = Vec::new();
        let mut word_len: usize = 0;
        let mut start: usize = 0;
        let mut k: usize = 0;
        let ghost mut done: Seq<Seq<char>> = Seq::empty();
        assert(s.take(0) =~= Seq::<char>::empty());
        assert(s.subrange(0, 0) =~= Seq::<char>::empty());
        while k < n
            invariant
                s == cs@,
                s == word_list@,
                n == s.len(),
                start <= k <= n,
                split_newlines(s.take(k as int)) == done.push(s.subrange(start as int, k as int)),
                words@.len() == done.len(),
                forall|j: int| 0 <= j < done.len() ==> #[trigger] words@[j]@ == strip_cr(done[j]),
                forall|j: int| 0 <= j < done.len() ==> #[trigger] strip_cr(done[j]).len() == word_len,
            decreases n - k,
        {
            let ghost piece = s.subrange(start as int, k as int);
            assert(s.take(k + 1).drop_last() =~= s.take(k as int));
            assert(s.take(k + 1).last() == s[k as int]);
            if cs[k] == '\n' {
                let mut end = k;
                if end > start && cs[end - 1] == '\r' {
                    end = end - 1;
                }
                let line = collect_string(slice_subrange(cs.as_slice(), start, end));
                assert(line@ =~= strip_cr(piece));
                let len = end - start;
                if words.len() > 0 && len != word_len {
                    proof {
                        let whole = split_newlines(s.take(k + 1));
                        assert(whole =~= done.push(piece).push(Seq::<char>::empty()));
                        lemma_split_prefix(s, k + 1);
                        assert forall|j: int| 0 <= j < done.len() + 1 implies #[trigger] done.push(
                            piece,
                        )[j] == split_newlines(s)[j] by {
                            assert(whole[j] == done.push(piece)[j]);
                        }
                        lemma_lines_prefix(s, done.push(piece));
                        assert(first_mismatch(lines_of(s), done.len() as int));
                    }
                    return Err(
                        Error::Format(
                            FormatError::LengthMismatch { word: line, expected: word_len, found: len },
                        ),
                    );
                }
                word_len = len;
                words.push(line);
                proof {
                    assert(s.subrange(k + 1, k + 1) =~= Seq::<char>::empty());
                    assert(split_newlines(s.take(k + 1)) =~= done.push(piece).push(
                        s.subrange(k + 1, k + 1),
                    ));
                    done = done.push(piece);
                }
                start = k + 1;
            } else {
                assert(s.subrange(start as int, k + 1) =~= piece.push(s[k as int]));
            }
            k = k + 1;
        }
        assert(s.take(n as int) =~= s);
        let ghost last = s.subrange(start as int, n as int);
        if start < n {
            let line = collect_string(slice_subrange(cs.as_slice(), start, n));
            let len = n - start;
            if words.len() > 0 && len != word_len {
                proof {
                    lemma_lines_prefix(s, done.push(last));
                    assert(first_mismatch(lines_of(s), done.len() as int));
                }
                return Err(
                    Error::Format(
                        FormatError::LengthMismatch { word: line, expected: word_len, found: len },
                    ),
                );
            }
            word_len = len;
            words.push(line);
        }
        if words.len() == 0 {
            return Err(Error::Format(FormatError::Empty));
        }
        let d = Dict { words, word_len };
        assert(d@ =~= lines_of(s));
        Ok(d)
    }
}

} // verus!
