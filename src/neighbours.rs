//! The neighbour graph: which words are one substitution apart.
use vstd::prelude::*;
use vstd::std_specs::iter::IteratorSpec;

use roaring::RoaringBitmap;
use std::collections::{HashMap, HashSet};

use crate::bitmap::{bitmap_ids, ids_of, intersect_all, subtract};
use crate::dict::{differ_only_at, hamming, mismatches, mismatches_below, one_apart, Dict};
use crate::error::{DecodeError, Error, FormatError};

verus! {

broadcast use vstd::std_specs::hash::group_hash_axioms;

/// The ids that an adjacency map links to `a`.
pub open spec fn linked(m: Map<u32, HashSet<u32>>, a: u32) -> Set<u32> {
    if m.contains_key(a) {
        m[a]@
    } else {
        Set::<u32>::empty()
    }
}

/// Every key of an adjacency map has at least one neighbour.
pub open spec fn no_empty_entries(m: Map<u32, HashSet<u32>>) -> bool {
    forall|a: u32| #[trigger] m.contains_key(a) ==> m[a]@ != Set::<u32>::empty()
}

/// Column of position `p`: each key is a character code, and its bitmap holds
/// exactly the ids of the words with that character at `p`. Every word's
/// character at `p` is a key.
pub open spec fn column_of(
    col: Map<u32, RoaringBitmap>,
    words: Seq<Seq<char>>,
    p: int,
) -> bool {
    &&& forall|k: u32, j: u32|
        #![trigger bitmap_ids(col[k]).contains(j)]
        col.contains_key(k) ==> (bitmap_ids(col[k]).contains(j) <==> (j < words.len()
            && words[j as int][p] as u32 == k))
    &&& forall|j: int| 0 <= j < words.len() ==> col.contains_key(#[trigger] words[j][p] as u32)
}

/// Links `a` to `b` in an adjacency map.
fn add_edge(edges: &mut HashMap<u32, HashSet<u32>>, a: u32, b: u32)
    requires
        no_empty_entries(old(edges)@),
    ensures
        no_empty_entries(final(edges)@),
        forall|x: u32, y: u32|
            #[trigger] linked(final(edges)@, x).contains(y) <==> (linked(old(edges)@, x).contains(y)
                || (x == a && y == b)),
{
    let mut set = match edges.remove(&a) {
        Some(s) => s,
        None => HashSet::new(),
    };
    set.insert(b);
    edges.insert(a, set);
    proof {
        assert(final(edges)@[a]@.contains(b));
        assert(!Set::<u32>::empty().contains(b));
        assert forall|x: u32, y: u32|
            #[trigger] linked(final(edges)@, x).contains(y) <==> (linked(old(edges)@, x).contains(y)
                || (x == a && y == b)) by {
            if x != a {
                assert(linked(final(edges)@, x) == linked(old(edges)@, x));
            }
        }
    }
}

/// Builds the column of position `p` over words whose characters are given.
fn build_column(letters: &Vec<Vec<char>>, p: usize) -> (col: HashMap<u32, RoaringBitmap>)
    requires
        letters@.len() <= u32::MAX,
        forall|j: int| 0 <= j < letters@.len() ==> p < #[trigger] letters@[j]@.len(),
    ensures
        column_of(col@, letters@.map_values(|w: Vec<char>| w@), p as int),
{
    let ghost words = letters@.map_values(|w: Vec<char>| w@);
    let mut col: HashMap<u32, RoaringBitmap> = HashMap::new();
    let n = letters.len();
    let mut wi: usize = 0;
    while wi < n
        invariant
            n == letters@.len(),
            n <= u32::MAX,
            wi <= n,
            words == letters@.map_values(|w: Vec<char>| w@),
            forall|j: int| 0 <= j < letters@.len() ==> p < #[trigger] letters@[j]@.len(),
            forall|k: u32, j: u32|
                #![trigger bitmap_ids(col@[k]).contains(j)]
                col@.contains_key(k) ==> (bitmap_ids(col@[k]).contains(j) <==> (j < wi
                    && words[j as int][p as int] as u32 == k)),
            forall|j: int| 0 <= j < wi ==> col@.contains_key(#[trigger] words[j][p as int] as u32),
        decreases n - wi,
    {
        let key = letters[wi][p] as u32;
        let mut bits = match col.remove(&key) {
            Some(b) => b,
            None => RoaringBitmap::new(),
        };
        bits.insert(wi as u32);
        col.insert(key, bits);
        wi = wi + 1;
    }
    col
}

/// The words whose characters `letters` holds.
pub open spec fn words_of(letters: Seq<Vec<char>>) -> Seq<Seq<char>> {
    letters.map_values(|w: Vec<char>| w@)
}

/// `x` is the id of a word that differs from word `wi` at position `p` only.
pub open spec fn differ_at_from(words: Seq<Seq<char>>, wi: int, p: int, x: u32) -> bool {
    x < words.len() && differ_only_at(words[wi], words[x as int], p)
}

/// Distinct characters have distinct codes.
proof fn lemma_char_code(a: char, b: char)
    ensures
        (a as u32 == b as u32) <==> a == b,
{
}

/// `x` is held by every bitmap of the list.
pub open spec fn in_all(maps: Seq<&RoaringBitmap>, x: u32) -> bool {
    forall|i: int| 0 <= i < maps.len() ==> #[trigger] bitmap_ids(*maps[i]).contains(x)
}

/// `u` and `v` agree at every position below `q` but `p`.
pub open spec fn agree_except(u: Seq<char>, v: Seq<char>, q: int, p: int) -> bool {
    forall|t: int| 0 <= t < q && t != p ==> #[trigger] u[t] == v[t]
}

/// The ids of the words that differ from word `wi` at position `p` and
/// nowhere else: the words that agree with it at every other position, less
/// those that also agree at `p`.
fn candidates(
    letters: &Vec<Vec<char>>,
    columns: &Vec<HashMap<u32, RoaringBitmap>>,
    wi: usize,
    p: usize,
) -> (r: RoaringBitmap)
    requires
        0 < letters@.len() <= u32::MAX,
        wi < letters@.len(),
        p < columns@.len(),
        forall|j: int| 0 <= j < letters@.len() ==> #[trigger] letters@[j]@.len() == columns@.len(),
        forall|q: int|
            0 <= q < columns@.len() ==> column_of(#[trigger] columns@[q]@, words_of(letters@), q),
    ensures
        forall|x: u32| #[trigger]
            bitmap_ids(r).contains(x) <==> differ_at_from(words_of(letters@), wi as int, p as int, x),
{
    let ghost words = words_of(letters@);
    let n = letters.len();
    let l = columns.len();
    let w = &letters[wi];
    assert(w@ == words[wi as int]);
    let mut others: Vec<&RoaringBitmap> = Vec::new();
    let mut missing = false;
    let mut q: usize = 0;
    while q < l
        invariant
            words == words_of(letters@),
            n == letters@.len(),
            l == columns@.len(),
            p < l,
            wi < n,
            w@ == words[wi as int],
            q <= l,
            forall|j: int| 0 <= j < letters@.len() ==> #[trigger] letters@[j]@.len() == l,
            forall|q: int| 0 <= q < l ==> column_of(#[trigger] columns@[q]@, words, q),
            !missing,
            others@.len() == if q <= p { q as int } else { q - 1 },
            forall|i: int, x: u32|
                0 <= i < others@.len() && #[trigger] bitmap_ids(*others@[i]).contains(x) ==> x < n,
            forall|x: u32|
                x < n ==> (#[trigger] in_all(others@, x) <==> agree_except(
                    words[x as int],
                    w@,
                    q as int,
                    p as int,
                )),
        decreases l - q,
    {
        if q != p {
            let key = w[q] as u32;
            match columns[q].get(&key) {
                Some(b) => {
                    let ghost before = others@;
                    others.push(b);
                    proof {
                        assert forall|x: u32| x < n implies (#[trigger] in_all(others@, x)
                            <==> agree_except(words[x as int], w@, q + 1, p as int)) by {
                            lemma_char_code(words[x as int][q as int], w@[q as int]);
                            lemma_agree_step(words[x as int], w@, q as int, p as int);
                            lemma_in_all_push(before, b, x);
                        }
                    }
                },
                None => {
                    proof {
                        assert(columns@[q as int]@.contains_key(words[wi as int][q as int] as u32));
                    }
                    missing = true;
                },
            }
        } else {
            proof {
                assert forall|x: u32| x < n implies (#[trigger] in_all(others@, x)
                    <==> agree_except(words[x as int], w@, q + 1, p as int)) by {
                    lemma_agree_step(words[x as int], w@, q as int, p as int);
                }
            }
        }
        q = q + 1;
    }
    let mut r = if others.len() > 0 {
        intersect_all(&others)
    } else {
        let mut full = RoaringBitmap::new();
        let mut x: usize = 0;
        while x < n
            invariant
                x <= n,
                n <= u32::MAX,
                forall|y: u32| #[trigger] bitmap_ids(full).contains(y) <==> y < x,
            decreases n - x,
        {
            full.insert(x as u32);
            x = x + 1;
        }
        assert(forall|y: u32| #[trigger] bitmap_ids(full).contains(y) <==> y < n);
        full
    };
    let ghost cand = r;
    assert forall|x: u32| #[trigger] bitmap_ids(cand).contains(x) <==> (x < n && agree_except(
        words[x as int],
        w@,
        l as int,
        p as int,
    )) by {
        if others@.len() > 0 {
            assert(bitmap_ids(cand).contains(x) <==> in_all(others@, x));
            if bitmap_ids(cand).contains(x) {
                assert(bitmap_ids(*others@[0]).contains(x));
            }
        } else {
            assert(l == 1);
            assert(bitmap_ids(cand).contains(x) <==> x < n);
            if x < n {
                assert forall|t: int| 0 <= t < l && t != p implies #[trigger] words[x as int][t]
                    == w@[t] by {}
            }
        }
    }
    assert(columns@[p as int]@.contains_key(words[wi as int][p as int] as u32));
    match columns[p].get(&(w[p] as u32)) {
        Some(same) => {
            subtract(&mut r, same);
            proof {
                assert forall|x: u32| #[trigger]
                    bitmap_ids(r).contains(x) <==> differ_at_from(words, wi as int, p as int, x) by {
                    lemma_char_code(words[x as int][p as int], w@[p as int]);
                    assert(bitmap_ids(*same).contains(x) <==> (x < n && words[x as int][p as int]
                        as u32 == w@[p as int] as u32));
                    if x < n {
                        assert(words[x as int].len() == l);
                        assert(w@.len() == l);
                    }
                }
            }
        },
        None => {},
    }
    r
}

/// One more position in an agreement.
proof fn lemma_agree_step(u: Seq<char>, v: Seq<char>, q: int, p: int)
    requires
        0 <= q,
    ensures
        agree_except(u, v, q + 1, p) <==> (agree_except(u, v, q, p) && (q == p || u[q] == v[q])),
{
    if agree_except(u, v, q, p) && (q == p || u[q] == v[q]) {
        assert forall|t: int| 0 <= t < q + 1 && t != p implies #[trigger] u[t] == v[t] by {
            if t < q {
                assert(agree_except(u, v, q, p));
            }
        }
    }
    if agree_except(u, v, q + 1, p) {
        assert forall|t: int| 0 <= t < q && t != p implies #[trigger] u[t] == v[t] by {
            assert(0 <= t < q + 1);
        }
        if q != p {
            assert(u[q] == v[q]);
        }
    }
}

/// One more bitmap in a list.
proof fn lemma_in_all_push(maps: Seq<&RoaringBitmap>, b: &RoaringBitmap, x: u32)
    ensures
        in_all(maps.push(b), x) <==> (in_all(maps, x) && bitmap_ids(*b).contains(x)),
{
    let m2 = maps.push(b);
    if in_all(maps, x) && bitmap_ids(*b).contains(x) {
        assert forall|i: int| 0 <= i < m2.len() implies #[trigger] bitmap_ids(*m2[i]).contains(x) by {
            if i < maps.len() {
                assert(m2[i] == maps[i]);
            }
        }
    }
    if in_all(m2, x) {
        assert forall|i: int| 0 <= i < maps.len() implies #[trigger] bitmap_ids(*maps[i]).contains(
            x,
        ) by {
            assert(m2[i] == maps[i]);
        }
        assert(bitmap_ids(*m2[maps.len() as int]).contains(x));
    }
}

/// Edge `a`–`b` of the graph of `words` is found once every word below `wi`
/// has been handled, and word `wi` at every position below `pi`.
pub open spec fn found(words: Seq<Seq<char>>, a: u32, b: u32, wi: int, pi: int) -> bool {
    &&& a < words.len()
    &&& b < words.len()
    &&& exists|p: int|
        #![trigger differ_only_at(words[a as int], words[b as int], p)]
        differ_only_at(words[a as int], words[b as int], p) && (a < wi || b < wi || ((a == wi
            || b == wi) && p < pi))
}

/// Links word `wi` to every word that differs from it at position `pi` only.
fn link_at(
    letters: &Vec<Vec<char>>,
    columns: &Vec<HashMap<u32, RoaringBitmap>>,
    edges: &mut HashMap<u32, HashSet<u32>>,
    wi: usize,
    pi: usize,
)
    requires
        0 < letters@.len() <= u32::MAX,
        wi < letters@.len(),
        pi < columns@.len(),
        forall|j: int| 0 <= j < letters@.len() ==> #[trigger] letters@[j]@.len() == columns@.len(),
        forall|q: int|
            0 <= q < columns@.len() ==> column_of(#[trigger] columns@[q]@, words_of(letters@), q),
        no_empty_entries(old(edges)@),
        forall|a: u32, b: u32|
            #[trigger] linked(old(edges)@, a).contains(b) <==> found(
                words_of(letters@),
                a,
                b,
                wi as int,
                pi as int,
            ),
    ensures
        no_empty_entries(final(edges)@),
        forall|a: u32, b: u32|
            #[trigger] linked(final(edges)@, a).contains(b) <==> found(
                words_of(letters@),
                a,
                b,
                wi as int,
                pi + 1,
            ),
{
    let ghost words = words_of(letters@);
    let cand = candidates(letters, columns, wi, pi);
    let ids = ids_of(&cand);
    let w = wi as u32;
    let mut t: usize = 0;
    while t < ids.len()
        invariant
            t <= ids@.len(),
            w == wi,
            no_empty_entries(edges@),
            forall|a: u32, b: u32|
                #[trigger] linked(edges@, a).contains(b) <==> (found(
                    words,
                    a,
                    b,
                    wi as int,
                    pi as int,
                ) || (a == w && ids@.take(t as int).contains(b)) || (b == w && ids@.take(
                    t as int,
                ).contains(a))),
        decreases ids@.len() - t,
    {
        let x = ids[t];
        let ghost e0 = edges@;
        add_edge(edges, w, x);
        let ghost e1 = edges@;
        add_edge(edges, x, w);
        let ghost before = ids@.take(t as int);
        let ghost after = ids@.take(t + 1);
        assert(after =~= before.push(x));
        assert forall|y: u32| #[trigger] after.contains(y) <==> (before.contains(y) || y == x) by {
            if after.contains(y) {
                let i = choose|i: int| 0 <= i < after.len() && after[i] == y;
                if i < t {
                    assert(before[i] == y);
                }
            }
            if before.contains(y) {
                let i = choose|i: int| 0 <= i < before.len() && before[i] == y;
                assert(after[i] == y);
            }
            if y == x {
                assert(after[t as int] == y);
            }
        }
        assert forall|a: u32, b: u32| #[trigger] linked(edges@, a).contains(b) <==> (linked(
            e0,
            a,
        ).contains(b) || (a == w && b == x) || (a == x && b == w)) by {
            assert(linked(e1, a).contains(b) <==> (linked(e0, a).contains(b) || (a == w && b
                == x)));
        }
        t = t + 1;
    }
    assert(ids@.take(t as int) =~= ids@);
    assert forall|a: u32, b: u32|
        #[trigger] linked(final(edges)@, a).contains(b) <==> found(words, a, b, wi as int, pi + 1) by {
        assert(ids@.contains(b) <==> bitmap_ids(cand).contains(b));
        assert(ids@.contains(a) <==> bitmap_ids(cand).contains(a));
        if found(words, a, b, wi as int, pi + 1) && !found(words, a, b, wi as int, pi as int) {
            let p = choose|p: int|
                differ_only_at(words[a as int], words[b as int], p) && (a < wi || b < wi || ((a
                    == wi || b == wi) && p < pi + 1));
            if a == w {
                assert(differ_at_from(words, wi as int, pi as int, b));
            } else {
                assert(differ_only_at(words[b as int], words[a as int], p));
                assert(differ_at_from(words, wi as int, pi as int, a));
            }
        }
        if a == w && bitmap_ids(cand).contains(b) {
            assert(differ_only_at(words[a as int], words[b as int], pi as int));
        }
        if b == w && bitmap_ids(cand).contains(a) {
            assert(differ_only_at(words[wi as int], words[a as int], pi as int));
            assert(differ_only_at(words[a as int], words[b as int], pi as int));
        }
    }
}

/// Handling word `wi` at every position finds what handling the next word
/// starts from.
proof fn lemma_found_next_word(words: Seq<Seq<char>>, l: nat, a: u32, b: u32, wi: int)
    requires
        forall|j: int| 0 <= j < words.len() ==> #[trigger] words[j].len() == l,
    ensures
        found(words, a, b, wi, l as int) <==> found(words, a, b, wi + 1, 0),
{
    if found(words, a, b, wi, l as int) {
        let p = choose|p: int|
            differ_only_at(words[a as int], words[b as int], p) && (a < wi || b < wi || ((a == wi
                || b == wi) && p < l));
        assert(differ_only_at(words[a as int], words[b as int], p));
    }
    if found(words, a, b, wi + 1, 0) {
        let p = choose|p: int|
            differ_only_at(words[a as int], words[b as int], p) && (a < wi + 1 || b < wi + 1);
        assert(words[a as int].len() == l);
        assert(differ_only_at(words[a as int], words[b as int], p) && p < l);
    }
}

/// The neighbour graph of a dictionary: for each word id, the ids of the words
/// one substitution away. Ids without neighbours have no entry.
pub struct Neighbours {
    edges: HashMap<u32, HashSet<u32>>,
}

impl Neighbours {
    /// The ids linked to `a`.
    pub closed spec fn spec_neighbours(&self, a: u32) -> Set<u32> {
        linked(self.edges@, a)
    }

    /// Only ids with at least one neighbour have an entry.
    pub closed spec fn spec_keys(&self) -> Set<u32> {
        self.edges@.dom()
    }

    /// The graph links exactly the ids of words one substitution apart, and
    /// has an entry exactly for the ids with a neighbour.
    pub open spec fn is_graph_of(&self, words: Seq<Seq<char>>) -> bool {
        &&& forall|a: u32, b: u32|
            #[trigger] self.spec_neighbours(a).contains(b) <==> (a < words.len() && b < words.len()
                && one_apart(words[a as int], words[b as int]))
        &&& forall|a: u32|
            #[trigger] self.spec_keys().contains(a) <==> self.spec_neighbours(a)
                != Set::<u32>::empty()
    }

    /// Every link joins two ids of `words` one substitution apart, and runs
    /// both ways: what a search needs of a graph.
    pub open spec fn is_ladder_graph(&self, words: Seq<Seq<char>>) -> bool {
        forall|a: u32, b: u32|
            #[trigger] self.spec_neighbours(a).contains(b) ==> {
                &&& a < words.len()
                &&& b < words.len()
                &&& one_apart(words[a as int], words[b as int])
                &&& self.spec_neighbours(b).contains(a)
            }
    }

    /// Builds the neighbour graph of `dict`: per position, the ids of the words
    /// holding each character; then for each word and position, the words that
    /// agree everywhere else, less those that also agree there. An empty
    /// dictionary is refused.
    pub fn try_from(dict: &Dict) -> (r: Result<Neighbours, Error>)
        requires
            dict.wf(),
            dict@.len() <= u32::MAX,
        ensures
            match r {
                Ok(g) => dict@.len() > 0 && g.is_graph_of(dict@) && g.is_ladder_graph(dict@),
                Err(e) => dict@.len() == 0 && e == Error::Format(FormatError::Empty),
            },
    {
        let n = dict.len();
        if n == 0 {
            return Err(Error::Format(FormatError::Empty));
        }
        let l = dict.word_len();
        let mut letters: Vec<Vec<char>> = Vec::new();
        let mut i: usize = 0;
        while i < n
            invariant
                n == dict@.len(),
                n <= u32::MAX,
                i <= n,
                letters@.len() == i,
                forall|j: int| 0 <= j < i ==> #[trigger] letters@[j]@ == dict@[j],
            decreases n - i,
        {
            letters.push(dict.chars(i as u32));
            i = i + 1;
        }
        let ghost words = words_of(letters@);
        assert(words =~= dict@);
        let mut columns: Vec<HashMap<u32, RoaringBitmap>> = Vec::new();
        let mut p: usize = 0;
        while p < l
            invariant
                words == words_of(letters@),
                letters@.len() == n,
                n <= u32::MAX,
                l == dict.spec_word_len(),
                forall|j: int| 0 <= j < n ==> #[trigger] letters@[j]@.len() == l,
                p <= l,
                columns@.len() == p,
                forall|q: int| 0 <= q < p ==> column_of(#[trigger] columns@[q]@, words, q),
            decreases l - p,
        {
            columns.push(build_column(&letters, p));
            p = p + 1;
        }
        let mut edges: HashMap<u32, HashSet<u32>> = HashMap::new();
        let mut wi: usize = 0;
        while wi < n
            invariant
                words == words_of(letters@),
                words == dict@,
                0 < n <= u32::MAX,
                letters@.len() == n,
                l == columns@.len(),
                forall|j: int| 0 <= j < n ==> #[trigger] letters@[j]@.len() == l,
                forall|q: int| 0 <= q < l ==> column_of(#[trigger] columns@[q]@, words, q),
                wi <= n,
                no_empty_entries(edges@),
                forall|a: u32, b: u32|
                    #[trigger] linked(edges@, a).contains(b) <==> found(words, a, b, wi as int, 0),
            decreases n - wi,
        {
            let mut pi: usize = 0;
            while pi < l
                invariant
                    words == words_of(letters@),
                    0 < n <= u32::MAX,
                    letters@.len() == n,
                    l == columns@.len(),
                    forall|j: int| 0 <= j < n ==> #[trigger] letters@[j]@.len() == l,
                    forall|q: int| 0 <= q < l ==> column_of(#[trigger] columns@[q]@, words, q),
                    wi < n,
                    pi <= l,
                    no_empty_entries(edges@),
                    forall|a: u32, b: u32|
                        #[trigger] linked(edges@, a).contains(b) <==> found(
                            words,
                            a,
                            b,
                            wi as int,
                            pi as int,
                        ),
                decreases l - pi,
            {
                link_at(&letters, &columns, &mut edges, wi, pi);
                pi = pi + 1;
            }
            assert forall|a: u32, b: u32|
                #[trigger] linked(edges@, a).contains(b) <==> found(words, a, b, wi + 1, 0) by {
                lemma_found_next_word(words, l as nat, a, b, wi as int);
            }
            wi = wi + 1;
        }
        let g = Neighbours { edges };
        assert forall|a: u32, b: u32|
            #[trigger] g.spec_neighbours(a).contains(b) <==> (a < words.len() && b < words.len()
                && one_apart(words[a as int], words[b as int])) by {
            if a < words.len() && b < words.len() && one_apart(words[a as int], words[b as int]) {
                let p = choose|p: int| differ_only_at(words[a as int], words[b as int], p);
                assert(found(words, a, b, n as int, 0));
            }
        }
        assert forall|a: u32|
            #[trigger] g.spec_keys().contains(a) <==> g.spec_neighbours(a) != Set::<u32>::empty() by {
            if !g.spec_keys().contains(a) {
                assert(g.spec_neighbours(a) == Set::<u32>::empty());
            }
        }
        proof {
            lemma_graph_is_ladder(&g, dict);
        }
        Ok(g)
    }

    /// The graph whose adjacency map is `edges`.
    pub fn create(edges: HashMap<u32, HashSet<u32>>) -> (r: Neighbours)
        ensures
            r.spec_keys() == edges@.dom(),
            forall|a: u32| #[trigger] r.spec_neighbours(a) == linked(edges@, a),
    {
        Neighbours { edges }
    }

    /// The graph whose adjacency map is `edges`, once checked against `dict`:
    /// every link must join two of its words one substitution apart and run
    /// both ways. A stored graph is refused otherwise.
    pub fn from_edges(dict: &Dict, edges: HashMap<u32, HashSet<u32>>) -> (r: Result<
        Neighbours,
        Error,
    >)
        requires
            dict.wf(),
        ensures
            match r {
                Ok(g) => {
                    &&& g.is_ladder_graph(dict@)
                    &&& g.spec_keys() == edges@.dom()
                    &&& forall|a: u32| #[trigger] g.spec_neighbours(a) == linked(edges@, a)
                },
                Err(e) => e == Error::Decode(DecodeError::BadGraph) && !ladder_map(edges@, dict@),
            },
    {
        let ghost m = edges@;
        let n = dict.len();
        let iter = edges.iter();
        let ghost elems = iter.remaining();
        for entry in it: iter
            invariant
                m == edges@,
                n == dict@.len(),
                dict.wf(),
                it.seq() == elems,
                elems.len() == m.dom().len(),
                forall|i: int|
                    #![trigger elems[i]]
                    0 <= i < elems.len() ==> m.contains_key(*elems[i].0) && m[*elems[i].0]
                        == *elems[i].1,
                forall|k: u32| #[trigger] m.contains_key(k) ==> elems.contains((&k, &m[k])),
                forall|i: int, b: u32|
                    0 <= i < it.index() && #[trigger] linked(m, *elems[i].0).contains(b)
                        ==> link_ok(m, dict@, *elems[i].0, b),
                n <= usize::MAX,
        {
            let (a, set) = entry;
            let a = *a;
            let ghost at = it.index();
            assert(entry == elems[at]);
            let inner = set.iter();
            let ghost items = inner.remaining();
            assert(items.unref().to_set() == set@);
            for b in jt: inner
                invariant
                    m == edges@,
                    n == dict@.len(),
                    dict.wf(),
                    m.contains_key(a),
                    m[a] == *set,
                    jt.seq() == items,
                    items.unref().to_set() == set@,
                    forall|j: int|
                        #![trigger items[j]]
                        0 <= j < jt.index() ==> link_ok(m, dict@, a, *items[j]),
            {
                let b = *b;
                let ghost bj = jt.index();
                proof {
                    assert(items.unref()[bj] == b);
                    assert(items.unref().to_set().contains(b));
                    assert(linked(m, a).contains(b));
                }
                if a as usize >= n || b as usize >= n {
                    return Err(Error::Decode(DecodeError::BadGraph));
                }
                let wa = dict.chars(a);
                let wb = dict.chars(b);
                if mismatches(&wa, &wb) != 1 {
                    proof {
                        lemma_hamming_one(dict@[a as int], dict@[b as int]);
                    }
                    return Err(Error::Decode(DecodeError::BadGraph));
                }
                let back = match edges.get(&b) {
                    Some(s2) => s2.contains(&a),
                    None => false,
                };
                if !back {
                    return Err(Error::Decode(DecodeError::BadGraph));
                }
                proof {
                    lemma_hamming_one(dict@[a as int], dict@[b as int]);
                }
            }
            proof {
                assert forall|b: u32| #[trigger] linked(m, a).contains(b) implies link_ok(m, dict@, a, b) by {
                    assert(items.unref().to_set().contains(b));
                    let j = choose|j: int| 0 <= j < items.len() && items.unref()[j] == b;
                    assert(*items[j] == b);
                }
                assert forall|i: int, b: u32|
                    0 <= i < at + 1 && #[trigger] linked(m, *elems[i].0).contains(b) implies link_ok(
                        m,
                        dict@,
                        *elems[i].0,
                        b,
                    ) by {
                    if i == at {
                        assert(*elems[i].0 == a);
                    }
                }
            }
        }
        proof {
            assert forall|a: u32, b: u32| #[trigger] linked(m, a).contains(b) implies link_ok(
                m,
                dict@,
                a,
                b,
            ) by {
                assert(m.contains_key(a));
                assert(elems.contains((&a, &m[a])));
                let i = choose|i: int| 0 <= i < elems.len() && elems[i] == (&a, &m[a]);
                assert(*elems[i].0 == a);
            }
        }
        let g = Neighbours { edges };
        Ok(g)
    }

    /// The adjacency map.
    pub fn destructure(self) -> (r: HashMap<u32, HashSet<u32>>)
        ensures
            r@.dom() == self.spec_keys(),
            forall|a: u32| #[trigger] linked(r@, a) == self.spec_neighbours(a),
    {
        self.edges
    }

    /// The neighbours of `key`, or `None` when it has none.
    pub fn get(&self, key: u32) -> (r: Option<&HashSet<u32>>)
        ensures
            match r {
                Some(s) => s@ == self.spec_neighbours(key) && self.spec_keys().contains(key),
                None => !self.spec_keys().contains(key) && self.spec_neighbours(key) == Set::<
                    u32,
                >::empty(),
            },
    {
        self.edges.get(&key)
    }

    /// The adjacency map itself.
    pub fn edges(&self) -> (r: &HashMap<u32, HashSet<u32>>)
        ensures
            r@.dom() == self.spec_keys(),
            forall|a: u32| #[trigger] linked(r@, a) == self.spec_neighbours(a),
    {
        &self.edges
    }

    /// Every id with neighbours, each with its neighbours, once.
    pub fn iter(&self) -> (r: std::collections::hash_map::Iter<'_, u32, HashSet<u32>>)
        ensures
            r.remaining().len() == self.spec_keys().len(),
            r.remaining().no_duplicates(),
            forall|i: int, j: int|
                0 <= i < r.remaining().len() && 0 <= j < r.remaining().len() && i != j ==> *(
                #[trigger] r.remaining()[i]).0 != *(#[trigger] r.remaining()[j]).0,
            forall|i: int|
                0 <= i < r.remaining().len() ==> {
                    let (k, v) = #[trigger] r.remaining()[i];
                    self.spec_keys().contains(*k) && v@ == self.spec_neighbours(*k)
                },
    {
        let r = self.edges.iter();
        proof {
            let v = r.remaining();
            assert forall|i: int, j: int|
                0 <= i < v.len() && 0 <= j < v.len() && i != j implies *(#[trigger] v[i]).0 != *(
                #[trigger] v[j]).0 by {
                if *v[i].0 == *v[j].0 {
                    let k = *v[i].0;
                    assert(self.edges@[k] == *v[i].1 && self.edges@[k] == *v[j].1);
                    assert(v[i] == v[j]);
                }
            }
            assert forall|i: int| 0 <= i < r.remaining().len() implies {
                let (k, v) = #[trigger] r.remaining()[i];
                self.spec_keys().contains(*k) && v@ == self.spec_neighbours(*k)
            } by {
                assert(self.edges@.contains_key(*r.remaining()[i].0));
            }
        }
        r
    }
}

/// The graph is symmetric: `b` is a neighbour of `a` exactly when `a` is a
/// neighbour of `b`.
pub proof fn lemma_symmetric(g: &Neighbours, dict: &Dict, a: u32, b: u32)
    requires
        g.is_graph_of(dict@),
    ensures
        g.spec_neighbours(a).contains(b) <==> g.spec_neighbours(b).contains(a),
{
    if g.spec_neighbours(a).contains(b) {
        let p = choose|p: int| differ_only_at(dict@[a as int], dict@[b as int], p);
        assert(differ_only_at(dict@[b as int], dict@[a as int], p));
    }
    if g.spec_neighbours(b).contains(a) {
        let p = choose|p: int| differ_only_at(dict@[b as int], dict@[a as int], p);
        assert(differ_only_at(dict@[a as int], dict@[b as int], p));
    }
}

/// The link from `a` to `b` of an adjacency map is one that a ladder graph
/// of `words` may hold.
pub open spec fn link_ok(m: Map<u32, HashSet<u32>>, words: Seq<Seq<char>>, a: u32, b: u32) -> bool {
    &&& a < words.len()
    &&& b < words.len()
    &&& one_apart(words[a as int], words[b as int])
    &&& linked(m, b).contains(a)
}

/// Every link of an adjacency map is one that a ladder graph of `words` may
/// hold.
pub open spec fn ladder_map(m: Map<u32, HashSet<u32>>, words: Seq<Seq<char>>) -> bool {
    forall|a: u32, b: u32| #[trigger] linked(m, a).contains(b) ==> link_ok(m, words, a, b)
}

/// Two words of one length are one substitution apart exactly when they
/// differ in one position.
proof fn lemma_hamming_one(u: Seq<char>, v: Seq<char>)
    requires
        u.len() == v.len(),
    ensures
        hamming(u, v) == 1 <==> one_apart(u, v),
{
    lemma_one_mismatch(u, v, u.len());
    if hamming(u, v) == 1 {
        let p = choose|p: int| only_diff_below(u, v, u.len() as int, p);
        assert(differ_only_at(u, v, p));
    }
    if one_apart(u, v) {
        let p = choose|p: int| differ_only_at(u, v, p);
        assert(only_diff_below(u, v, u.len() as int, p));
    }
}

/// The neighbour graph of a dictionary is a ladder graph.
pub proof fn lemma_graph_is_ladder(g: &Neighbours, dict: &Dict)
    requires
        g.is_graph_of(dict@),
    ensures
        g.is_ladder_graph(dict@),
{
    assert forall|a: u32, b: u32| #[trigger] g.spec_neighbours(a).contains(b) implies {
        &&& a < dict@.len()
        &&& b < dict@.len()
        &&& one_apart(dict@[a as int], dict@[b as int])
        &&& g.spec_neighbours(b).contains(a)
    } by {
        lemma_symmetric(g, dict, a, b);
    }
}

/// No id is its own neighbour.
pub proof fn lemma_no_self_loop(g: &Neighbours, dict: &Dict, a: u32)
    requires
        g.is_graph_of(dict@),
    ensures
        !g.spec_neighbours(a).contains(a),
{
    if g.spec_neighbours(a).contains(a) {
        let p = choose|p: int| differ_only_at(dict@[a as int], dict@[a as int], p);
    }
}

/// The graph has exactly the edges of a pairwise comparison: two ids are
/// linked exactly when their words have one length and differ in exactly one
/// position.
pub proof fn lemma_pairwise(g: &Neighbours, dict: &Dict, a: u32, b: u32)
    requires
        g.is_graph_of(dict@),
    ensures
        g.spec_neighbours(a).contains(b) <==> (a < dict@.len() && b < dict@.len() && dict@[a as int].len()
            == dict@[b as int].len() && hamming(dict@[a as int], dict@[b as int]) == 1),
{
    if a < dict@.len() && b < dict@.len() && dict@[a as int].len() == dict@[b as int].len() {
        lemma_hamming_one(dict@[a as int], dict@[b as int]);
    }
}

/// `u` and `v` agree at every position below `n`.
pub open spec fn agree_below(u: Seq<char>, v: Seq<char>, n: int) -> bool {
    forall|q: int| 0 <= q < n ==> #[trigger] u[q] == v[q]
}

/// Below `n`, `u` and `v` differ at `p` and nowhere else.
pub open spec fn only_diff_below(u: Seq<char>, v: Seq<char>, n: int, p: int) -> bool {
    &&& 0 <= p < n
    &&& u[p] != v[p]
    &&& forall|q: int| 0 <= q < n && q != p ==> #[trigger] u[q] == v[q]
}

/// Below `n`, no mismatch means agreement everywhere.
proof fn lemma_no_mismatch(u: Seq<char>, v: Seq<char>, n: nat)
    requires
        n <= u.len(),
        n <= v.len(),
    ensures
        mismatches_below(u, v, n) == 0 <==> agree_below(u, v, n as int),
    decreases n,
{
    if n > 0 {
        let m = (n - 1) as nat;
        lemma_no_mismatch(u, v, m);
        if agree_below(u, v, n as int) {
            assert(u[m as int] == v[m as int]);
            assert(agree_below(u, v, m as int));
        }
    }
}

/// Below `n`, one mismatch means a single differing position.
proof fn lemma_one_mismatch(u: Seq<char>, v: Seq<char>, n: nat)
    requires
        n <= u.len(),
        n <= v.len(),
    ensures
        mismatches_below(u, v, n) == 1 <==> exists|p: int| only_diff_below(u, v, n as int, p),
    decreases n,
{
    if n > 0 {
        let m = (n - 1) as nat;
        lemma_one_mismatch(u, v, m);
        lemma_no_mismatch(u, v, m);
        if mismatches_below(u, v, n) == 1 {
            if u[m as int] != v[m as int] {
                assert(only_diff_below(u, v, n as int, m as int));
            } else {
                let p = choose|p: int| only_diff_below(u, v, m as int, p);
                assert(only_diff_below(u, v, n as int, p));
            }
        }
        if exists|p: int| only_diff_below(u, v, n as int, p) {
            let p = choose|p: int| only_diff_below(u, v, n as int, p);
            if p == m {
                assert(agree_below(u, v, m as int));
            } else {
                assert(u[m as int] == v[m as int]);
                assert(only_diff_below(u, v, m as int, p));
            }
        }
    }
}

} // verus!

