//! Deterministic ordering of keys.
//!
//! Every key that orders a collection of this library (names, paths, symbol
//! identifiers, edge keys) is encoded as a sequence of `u32` codes, and keys are
//! compared by the lexicographic order of their codes. The encodings are chosen so
//! that this order agrees with the order the key types define in Rust: strings by
//! character, paths by component, enums by variant and then by field.
use vstd::prelude::*;

verus! {

/// The outcome of comparing two keys.
#[derive(Debug, Clone, Copy, PartialEq, Eq, Structural)]
pub enum KeyOrder {
    Less,
    Equal,
    Greater,
}

/// Strict lexicographic order on code sequences; a proper prefix comes first.
pub open spec fn lex_lt(a: Seq<u32>, b: Seq<u32>) -> bool
    decreases a.len(),
{
    if a.len() == 0 {
        b.len() > 0
    } else if b.len() == 0 {
        false
    } else if a[0] != b[0] {
        a[0] < b[0]
    } else {
        lex_lt(a.drop_first(), b.drop_first())
    }
}

pub proof fn lemma_lex_irreflexive(a: Seq<u32>)
    ensures
        !lex_lt(a, a),
    decreases a.len(),
{
    if a.len() > 0 {
        lemma_lex_irreflexive(a.drop_first());
    }
}

pub proof fn lemma_lex_asymmetric(a: Seq<u32>, b: Seq<u32>)
    ensures
        lex_lt(a, b) ==> !lex_lt(b, a),
    decreases a.len(),
{
    if a.len() > 0 && b.len() > 0 && a[0] == b[0] {
        lemma_lex_asymmetric(a.drop_first(), b.drop_first());
    }
}

pub proof fn lemma_lex_transitive(a: Seq<u32>, b: Seq<u32>, c: Seq<u32>)
    requires
        lex_lt(a, b),
        lex_lt(b, c),
    ensures
        lex_lt(a, c),
    decreases a.len(),
{
    if a.len() > 0 && b.len() > 0 && c.len() > 0 && a[0] == b[0] && b[0] == c[0] {
        lemma_lex_transitive(a.drop_first(), b.drop_first(), c.drop_first());
    }
}

pub proof fn lemma_lex_total(a: Seq<u32>, b: Seq<u32>)
    ensures
        a == b || lex_lt(a, b) || lex_lt(b, a),
    decreases a.len(),
{
    if a.len() > 0 && b.len() > 0 && a[0] == b[0] {
        lemma_lex_total(a.drop_first(), b.drop_first());
        if a.drop_first() == b.drop_first() {
            assert(a =~= seq![a[0]] + a.drop_first());
            assert(b =~= seq![b[0]] + b.drop_first());
        }
    } else if a.len() == 0 && b.len() == 0 {
        assert(a =~= b);
    }
}

proof fn lemma_lex_skip(a: Seq<u32>, b: Seq<u32>, i: int)
    requires
        0 <= i <= a.len(),
        i <= b.len(),
        forall|j: int| 0 <= j < i ==> a[j] == b[j],
    ensures
        lex_lt(a, b) == lex_lt(a.skip(i), b.skip(i)),
    decreases i,
{
    if i > 0 {
        lemma_lex_skip(a.drop_first(), b.drop_first(), i - 1);
        assert(a.drop_first().skip(i - 1) =~= a.skip(i));
        assert(b.drop_first().skip(i - 1) =~= b.skip(i));
    } else {
        assert(a.skip(0) =~= a);
        assert(b.skip(0) =~= b);
    }
}

/// Compares two code sequences.
pub fn compare_codes(a: &[u32], b: &[u32]) -> (r: KeyOrder)
    ensures
        (r == KeyOrder::Less) == lex_lt(a@, b@),
        (r == KeyOrder::Equal) == (a@ == b@),
        (r == KeyOrder::Greater) == lex_lt(b@, a@),
{
    proof {
        lemma_lex_asymmetric(a@, b@);
        lemma_lex_irreflexive(a@);
        lemma_lex_total(a@, b@);
    }
    let n = a.len();
    let m = b.len();
    let mut i: usize = 0;
    while i < n && i < m
        invariant
            i <= n == a@.len(),
            i <= m == b@.len(),
            forall|j: int| 0 <= j < i ==> a@[j] == b@[j],
        decreases n - i,
    {
        if a[i] != b[i] {
            proof {
                lemma_lex_skip(a@, b@, i as int);
                lemma_lex_skip(b@, a@, i as int);
            }
            if a[i] < b[i] {
                return KeyOrder::Less;
            } else {
                return KeyOrder::Greater;
            }
        }
        i = i + 1;
    }
    proof {
        lemma_lex_skip(a@, b@, i as int);
        lemma_lex_skip(b@, a@, i as int);
    }
    if n < m {
        KeyOrder::Less
    } else if m < n {
        KeyOrder::Greater
    } else {
        assert(a@ =~= b@);
        KeyOrder::Equal
    }
}

/// Whether a sequence of keys is strictly increasing.
pub open spec fn strictly_sorted(ks: Seq<Seq<u32>>) -> bool {
    forall|i: int, j: int| 0 <= i < j < ks.len() ==> lex_lt(#[trigger] ks[i], #[trigger] ks[j])
}

/// The code of one character inside a string key: above the two markers 0 and 1.
pub open spec fn char_code(c: char) -> u32 {
    if (c as u32) < 0xFFFF_FFF0 {
        (c as u32 + 2) as u32
    } else {
        0xFFFF_FFFF
    }
}

/// Exec form of [`char_code`].
pub fn char_code_of(c: char) -> (r: u32)
    ensures
        r == char_code(c),
{
    let v = c as u32;
    if v < 0xFFFF_FFF0 {
        v + 2
    } else {
        0xFFFF_FFFF
    }
}

/// A string key: its characters, then the terminator 0, so that a proper prefix
/// sorts first and keys can be concatenated without ambiguity.
pub open spec fn enc_str(s: Seq<char>) -> Seq<u32> {
    s.map_values(|c: char| char_code(c)).push(0)
}

/// Appends the code of a string key.
pub fn push_enc_str(out: &mut Vec<u32>, s: &str)
    ensures
        final(out)@ == old(out)@ + enc_str(s@),
{
    let cs = crate::text::chars_of(s);
    let n = cs.len();
    for i in 0..n
        invariant
            n == cs@.len(),
            cs@ == s@,
            out@ == old(out)@ + s@.take(i as int).map_values(|c: char| char_code(c)),
    {
        let c = cs[i];
        out.push(char_code_of(c));
        assert(s@.take(i + 1).map_values(|c: char| char_code(c)) =~= s@.take(i as int).map_values(
            |c: char| char_code(c),
        ).push(char_code(c)));
    }
    out.push(0);
    assert(s@.take(n as int) =~= s@);
}

/// A key that orders by one string.
pub fn str_key(s: &str) -> (r: Vec<u32>)
    ensures
        r@ == enc_str(s@),
{
    let mut v: Vec<u32> = Vec::new();
    push_enc_str(&mut v, s);
    assert(v@ =~= enc_str(s@));
    v
}

/// Index of the first `/` in `s`, or `s.len()` when there is none.
pub open spec fn first_slash(s: Seq<char>) -> nat
    decreases s.len(),
{
    if s.len() == 0 {
        0
    } else if s[0] == '/' {
        0
    } else {
        1 + first_slash(s.drop_first())
    }
}

proof fn lemma_first_slash(s: Seq<char>, m: int)
    requires
        0 <= m <= s.len(),
        forall|k: int| 0 <= k < m ==> s[k] != '/',
        m == s.len() || s[m] == '/',
    ensures
        first_slash(s) == m,
    decreases m,
{
    if m > 0 {
        lemma_first_slash(s.drop_first(), m - 1);
    }
}

/// The code of one path component that is not the root or the current directory.
pub open spec fn enc_part(p: Seq<char>) -> Seq<u32> {
    if p.len() == 0 || p == seq!['.'] {
        Seq::empty()
    } else if p == seq!['.', '.'] {
        seq![3u32]
    } else {
        seq![4u32] + enc_str(p)
    }
}

/// The codes of the components of a path remainder, `/`-separated; empty and `.`
/// parts do not count as components (as `Path::components` reads them).
pub open spec fn enc_parts(s: Seq<char>) -> Seq<u32>
    decreases s.len(),
{
    if s.len() == 0 {
        Seq::empty()
    } else {
        let i = first_slash(s);
        if i < s.len() {
            enc_part(s.subrange(0, i as int)) + enc_parts(s.subrange(i as int + 1, s.len() as int))
        } else {
            enc_part(s)
        }
    }
}

/// A path key: compared component by component, as `Path`'s order does
/// (root directory 1, leading `.` 2, `..` 3, a named component 4 then its name),
/// closed by 0.
pub open spec fn enc_path(s: Seq<char>) -> Seq<u32> {
    if s.len() > 0 && s[0] == '/' {
        seq![1u32] + enc_parts(s.drop_first()) + seq![0u32]
    } else if s.len() > 0 && s[0] == '.' && (s.len() == 1 || s[1] == '/') {
        seq![2u32] + enc_parts(s.drop_first()) + seq![0u32]
    } else {
        enc_parts(s) + seq![0u32]
    }
}

proof fn lemma_first_slash_bound(s: Seq<char>)
    ensures
        first_slash(s) <= s.len(),
        first_slash(s) < s.len() ==> s[first_slash(s) as int] == '/',
        forall|k: int| 0 <= k < first_slash(s) ==> s[k] != '/',
    decreases s.len(),
{
    if s.len() > 0 && s[0] != '/' {
        lemma_first_slash_bound(s.drop_first());
        assert forall|k: int| 0 <= k < first_slash(s) implies s[k] != '/' by {
            if k > 0 {
                assert(s[k] == s.drop_first()[k - 1]);
            }
        }
    }
}

/// Appends the codes of the component `cs[from..to]`.
fn push_enc_part(out: &mut Vec<u32>, cs: &[char], from: usize, to: usize)
    requires
        from <= to <= cs@.len(),
    ensures
        final(out)@ == old(out)@ + enc_part(cs@.subrange(from as int, to as int)),
{
    let ghost p = cs@.subrange(from as int, to as int);
    if to == from {
        assert(p.len() == 0);
        assert(old(out)@ + enc_part(p) =~= old(out)@);
        return;
    }
    if to - from == 1 && cs[from] == '.' {
        assert(p =~= seq!['.']);
        assert(old(out)@ + enc_part(p) =~= old(out)@);
        return;
    }
    if to - from == 2 && cs[from] == '.' && cs[from + 1] == '.' {
        assert(p =~= seq!['.', '.']);
        out.push(3);
        return;
    }
    assert(p != seq!['.']) by {
        if p.len() == 1 {
            assert(p[0] == cs@[from as int]);
        }
    }
    assert(p != seq!['.', '.']) by {
        if p.len() == 2 {
            assert(p[0] == cs@[from as int]);
            assert(p[1] == cs@[from + 1]);
        }
    }
    out.push(4);
    let mut i = from;
    while i < to
        invariant
            from <= i <= to <= cs@.len(),
            p == cs@.subrange(from as int, to as int),
            out@ == old(out)@ + seq![4u32] + cs@.subrange(from as int, i as int).map_values(
                |c: char| char_code(c),
            ),
        decreases to - i,
    {
        let c = cs[i];
        out.push(char_code_of(c));
        assert(cs@.subrange(from as int, i + 1).map_values(|c: char| char_code(c))
            =~= cs@.subrange(from as int, i as int).map_values(|c: char| char_code(c)).push(
            char_code(c),
        ));
        i = i + 1;
    }
    out.push(0);
    assert(out@ =~= old(out)@ + enc_part(p));
}

/// Appends the code of a path key.
pub fn push_enc_path(out: &mut Vec<u32>, s: &str)
    ensures
        final(out)@ == old(out)@ + enc_path(s@),
{
    let cs = crate::text::chars_of(s);
    let n = cs.len();
    let mut i: usize = 0;
    if n > 0 && cs[0] == '/' {
        out.push(1);
        i = 1;
    } else if n > 0 && cs[0] == '.' && (n == 1 || cs[1] == '/') {
        out.push(2);
        i = 1;
    }
    let ghost prefix = out@;
    let ghost whole = cs@.subrange(i as int, n as int);
    assert(whole =~= if i == 1 { cs@.drop_first() } else { cs@ });
    while i < n
        invariant
            i <= n == cs@.len(),
            cs@ == s@,
            whole == cs@.subrange(if prefix.len() > old(out)@.len() { 1 } else { 0 }, n as int),
            out@ + enc_parts(cs@.subrange(i as int, n as int)) == prefix + enc_parts(whole),
        decreases n - i,
    {
        let mut j = i;
        while j < n && cs[j] != '/'
            invariant
                i <= j <= n == cs@.len(),
                forall|k: int| i <= k < j ==> cs@[k] != '/',
            decreases n - j,
        {
            j = j + 1;
        }
        let ghost rest = cs@.subrange(i as int, n as int);
        proof {
            lemma_first_slash(rest, j - i);
            assert(rest.subrange(0, j - i) =~= cs@.subrange(i as int, j as int));
            if j < n {
                assert(rest.subrange(j - i + 1, rest.len() as int) =~= cs@.subrange(j + 1, n as int));
            }
        }
        push_enc_part(out, &cs, i, j);
        if j < n {
            i = j + 1;
        } else {
            assert(rest =~= cs@.subrange(i as int, j as int));
            i = n;
        }
        assert(out@ + enc_parts(cs@.subrange(i as int, n as int)) == prefix + enc_parts(whole)) by {
            assert(cs@.subrange(n as int, n as int).len() == 0);
        }
    }
    assert(cs@.subrange(n as int, n as int).len() == 0);
    out.push(0);
    proof {
        if n > 0 && cs@[0] == '/' {
        } else if n > 0 && cs@[0] == '.' && (n == 1 || cs@[1] == '/') {
        } else {
            assert(whole =~= cs@);
        }
    }
    assert(out@ =~= old(out)@ + enc_path(s@));
}

/// A key that orders by one path.
pub fn path_key(s: &str) -> (r: Vec<u32>)
    ensures
        r@ == enc_path(s@),
{
    let mut v: Vec<u32> = Vec::new();
    push_enc_path(&mut v, s);
    assert(v@ =~= enc_path(s@));
    v
}


/// A map whose entries are kept in increasing key order, with unique keys.
///
/// It is the ordered map of this library: iterating it by index visits the entries
/// in key order, as a `BTreeMap` does.
#[derive(Debug)]
pub struct OrdMap<V> {
    pub keys: Vec<Vec<u32>>,
    pub vals: Vec<V>,
}

impl<V> OrdMap<V> {
    /// The keys, in order.
    pub open spec fn key_view(&self) -> Seq<Seq<u32>> {
        self.keys@.map_values(|k: Vec<u32>| k@)
    }

    /// Keys and values line up and the keys increase strictly.
    pub open spec fn wf(&self) -> bool {
        &&& self.keys@.len() == self.vals@.len()
        &&& strictly_sorted(self.key_view())
    }

    pub open spec fn contains(&self, k: Seq<u32>) -> bool {
        self.key_view().contains(k)
    }

    pub open spec fn size(&self) -> nat {
        self.keys@.len()
    }

    /// An empty map.
    pub fn new() -> (r: Self)
        ensures
            r.wf(),
            r.size() == 0,
    {
        let r = OrdMap { keys: Vec::new(), vals: Vec::new() };
        assert(r.key_view() =~= Seq::<Seq<u32>>::empty());
        r
    }

    pub fn len(&self) -> (r: usize)
        ensures
            r == self.size(),
    {
        self.keys.len()
    }

    /// Locates a key: `Ok(i)` when it is the `i`-th key, else `Err(p)` with `p` the
    /// position where it would be inserted to keep the order.
    pub fn find(&self, key: &[u32]) -> (r: Result<usize, usize>)
        requires
            self.wf(),
        ensures
            r matches Ok(i) ==> i < self.size() && self.key_view()[i as int] == key@,
            r matches Err(p) ==> {
                &&& p <= self.size()
                &&& forall|i: int| 0 <= i < p ==> lex_lt(#[trigger] self.key_view()[i], key@)
                &&& forall|i: int| p <= i < self.size() ==> lex_lt(key@, #[trigger] self.key_view()[i])
                &&& !self.contains(key@)
            },
    {
        let n = self.keys.len();
        let mut i: usize = 0;
        while i < n
            invariant
                self.wf(),
                i <= n == self.size(),
                forall|j: int| 0 <= j < i ==> lex_lt(#[trigger] self.key_view()[j], key@),
            decreases n - i,
        {
            match compare_codes(self.keys[i].as_slice(), key) {
                KeyOrder::Equal => {
                    return Ok(i);
                },
                KeyOrder::Greater => {
                    proof {
                        assert forall|j: int| i <= j < self.size() implies lex_lt(key@, #[trigger] self.key_view()[j]) by {
                            if j > i {
                                lemma_lex_transitive(key@, self.key_view()[i as int], self.key_view()[j]);
                            }
                        }
                        assert forall|j: int| 0 <= j < self.size() implies self.key_view()[j] != key@ by {
                            if j < i {
                                lemma_lex_irreflexive(key@);
                            } else {
                                lemma_lex_irreflexive(key@);
                            }
                        }
                    }
                    return Err(i);
                },
                KeyOrder::Less => {},
            }
            i = i + 1;
        }
        proof {
            assert forall|j: int| 0 <= j < self.size() implies self.key_view()[j] != key@ by {
                lemma_lex_irreflexive(key@);
            }
        }
        Err(n)
    }

    /// Inserts `val` under `key`, replacing the value a present key holds.
    pub fn insert(&mut self, key: Vec<u32>, val: V) -> (pos: usize)
        requires
            old(self).wf(),
        ensures
            final(self).wf(),
            pos < final(self).size(),
            final(self).key_view()[pos as int] == key@,
            final(self).vals@[pos as int] == val,
            old(self).contains(key@) ==> {
                &&& final(self).key_view() == old(self).key_view()
                &&& final(self).vals@ == old(self).vals@.update(pos as int, val)
            },
            !old(self).contains(key@) ==> {
                &&& pos <= old(self).size()
                &&& final(self).key_view() == old(self).key_view().insert(pos as int, key@)
                &&& final(self).vals@ == old(self).vals@.insert(pos as int, val)
            },
    {
        match self.find(key.as_slice()) {
            Ok(i) => {
                self.vals.set(i, val);
                proof {
                    assert(self.key_view() =~= old(self).key_view());
                }
                i
            },
            Err(p) => {
                let ghost kv = old(self).key_view();
                self.keys.insert(p, key);
                self.vals.insert(p, val);
                proof {
                    assert(self.key_view() =~= kv.insert(p as int, key@));
                    let nk = self.key_view();
                    assert forall|i: int, j: int| 0 <= i < j < nk.len() implies lex_lt(
                        #[trigger] nk[i],
                        #[trigger] nk[j],
                    ) by {
                        if j < p {
                        } else if j == p {
                            assert(nk[i] == kv[i]);
                        } else if i < p {
                            assert(nk[i] == kv[i]);
                            assert(nk[j] == kv[j - 1]);
                            lemma_lex_transitive(kv[i], key@, kv[j - 1]);
                        } else if i == p {
                            assert(nk[j] == kv[j - 1]);
                        } else {
                            assert(nk[i] == kv[i - 1]);
                            assert(nk[j] == kv[j - 1]);
                        }
                    }
                }
                p
            },
        }
    }

    /// Inserts `val` under `key` only when the key is absent (`entry().or_insert`);
    /// returns the position of the new entry, or `None` when the key was present.
    pub fn insert_if_absent(&mut self, key: Vec<u32>, val: V) -> (r: Option<usize>)
        requires
            old(self).wf(),
        ensures
            final(self).wf(),
            r is None <==> old(self).contains(key@),
            r is None ==> *final(self) == *old(self),
            r matches Some(p) ==> {
                &&& p <= old(self).size()
                &&& final(self).key_view() == old(self).key_view().insert(p as int, key@)
                &&& final(self).vals@ == old(self).vals@.insert(p as int, val)
            },
    {
        match self.find(key.as_slice()) {
            Ok(_) => None,
            Err(_) => Some(self.insert(key, val)),
        }
    }

    /// The key of the `i`-th entry.
    pub fn key_at(&self, i: usize) -> (r: &Vec<u32>)
        requires
            i < self.size(),
        ensures
            r@ == self.key_view()[i as int],
    {
        &self.keys[i]
    }

    /// The value of the `i`-th entry.
    pub fn value_at(&self, i: usize) -> (r: &V)
        requires
            i < self.vals@.len(),
        ensures
            *r == self.vals@[i as int],
    {
        &self.vals[i]
    }

    /// Replaces the value of the `i`-th entry, returning the previous one.
    pub fn replace_at(&mut self, i: usize, val: V) -> (r: V)
        requires
            i < old(self).vals@.len(),
        ensures
            r == old(self).vals@[i as int],
            final(self).keys == old(self).keys,
            final(self).vals@ == old(self).vals@.update(i as int, val),
    {
        let mut v = val;
        std::mem::swap(&mut v, &mut self.vals[i]);
        v
    }
}

/// Appends `item` to the list held under `key`, creating the entry `(tag, [item])`
/// when the key is absent (`entry(key).or_default().push(item)`).
pub fn append_to_entry<K, T>(m: &mut OrdMap<(K, Vec<T>)>, key: Vec<u32>, tag: K, item: T) -> (pos: usize)
    requires
        old(m).wf(),
    ensures
        final(m).wf(),
        pos < final(m).size(),
        final(m).key_view()[pos as int] == key@,
        old(m).contains(key@) ==> {
            &&& final(m).key_view() == old(m).key_view()
            &&& final(m).vals@.len() == old(m).vals@.len()
            &&& final(m).vals@[pos as int].0 == old(m).vals@[pos as int].0
            &&& final(m).vals@[pos as int].1@ == old(m).vals@[pos as int].1@.push(item)
            &&& forall|j: int| 0 <= j < final(m).vals@.len() && j != pos ==> #[trigger] final(m).vals@[j] == old(m).vals@[j]
        },
        list_at(*final(m), key@) == list_at(*old(m), key@).push(item),
        forall|k: Seq<u32>| k != key@ ==> #[trigger] list_at(*final(m), k) == list_at(*old(m), k),
        !old(m).contains(key@) ==> {
            &&& pos <= old(m).size()
            &&& final(m).key_view() == old(m).key_view().insert(pos as int, key@)
            &&& final(m).vals@.len() == old(m).vals@.len() + 1
            &&& final(m).vals@[pos as int].0 == tag
            &&& final(m).vals@[pos as int].1@ == seq![item]
            &&& forall|j: int| 0 <= j < pos ==> #[trigger] final(m).vals@[j] == old(m).vals@[j]
            &&& forall|j: int| pos < j < final(m).vals@.len() ==> #[trigger] final(m).vals@[j] == old(m).vals@[j - 1]
        },
{
    let ghost om = *m;
    let pos = match m.find(key.as_slice()) {
        Ok(i) => {
            let (t, mut list) = m.replace_at(i, (tag, Vec::new()));
            list.push(item);
            let _ = m.replace_at(i, (t, list));
            proof {
                assert(m.key_view() =~= old(m).key_view());
            }
            i
        },
        Err(_) => {
            let mut list = Vec::new();
            list.push(item);
            m.insert(key, (tag, list))
        },
    };
    proof {
        lemma_append_list_at(om, *m, key@, pos as int, item);
    }
    pos
}

/// What appending to the entry of `key` does to the lists held: that of `key`
/// gains `item` at its end; the others stay.
pub proof fn lemma_append_list_at<K, T>(om: OrdMap<(K, Vec<T>)>, m: OrdMap<(K, Vec<T>)>, key: Seq<u32>, pos: int, item: T)
    requires
        om.wf(),
        m.wf(),
        0 <= pos < m.size(),
        m.key_view()[pos] == key,
        om.contains(key) ==> {
            &&& m.key_view() == om.key_view()
            &&& m.vals@.len() == om.vals@.len()
            &&& m.vals@[pos].1@ == om.vals@[pos].1@.push(item)
            &&& forall|j: int| 0 <= j < m.vals@.len() && j != pos ==> #[trigger] m.vals@[j] == om.vals@[j]
        },
        !om.contains(key) ==> {
            &&& pos <= om.size()
            &&& m.key_view() == om.key_view().insert(pos, key)
            &&& m.vals@.len() == om.vals@.len() + 1
            &&& m.vals@[pos].1@ == seq![item]
            &&& forall|j: int| 0 <= j < pos ==> #[trigger] m.vals@[j] == om.vals@[j]
            &&& forall|j: int| pos < j < m.vals@.len() ==> #[trigger] m.vals@[j] == om.vals@[j - 1]
        },
    ensures
        list_at(m, key) == list_at(om, key).push(item),
        forall|k: Seq<u32>| k != key ==> #[trigger] list_at(m, k) == list_at(om, k),
{
    lemma_pos_of(m, pos);
    if om.contains(key) {
        lemma_pos_of(om, pos);
        assert forall|k: Seq<u32>| k != key implies #[trigger] list_at(m, k) == list_at(om, k) by {
            if om.contains(k) {
                let q = choose|q: int| 0 <= q < om.key_view().len() && om.key_view()[q] == k;
                lemma_pos_of(om, q);
                lemma_pos_of(m, q);
            } else {
                assert(!m.contains(k));
            }
        }
    } else {
        assert(list_at(om, key) =~= Seq::<T>::empty());
        assert(list_at(m, key) =~= seq![item]);
        assert forall|k: Seq<u32>| k != key implies #[trigger] list_at(m, k) == list_at(om, k) by {
            if om.contains(k) {
                let q = choose|q: int| 0 <= q < om.key_view().len() && om.key_view()[q] == k;
                lemma_pos_of(om, q);
                if q < pos {
                    assert(m.key_view()[q] == k);
                    lemma_pos_of(m, q);
                } else {
                    assert(m.key_view()[q + 1] == k);
                    lemma_pos_of(m, q + 1);
                }
            } else if m.contains(k) {
                let q = choose|q: int| 0 <= q < m.key_view().len() && m.key_view()[q] == k;
                if q < pos {
                    assert(om.key_view()[q] == k);
                } else if q > pos {
                    assert(om.key_view()[q - 1] == k);
                }
            }
        }
    }
}

/// Two positions of a well-formed map holding the same key are the same position.
pub proof fn lemma_unique_key<V>(m: OrdMap<V>, i: int, j: int)
    requires
        m.wf(),
        0 <= i < m.size(),
        0 <= j < m.size(),
        m.key_view()[i] == m.key_view()[j],
    ensures
        i == j,
{
    if i < j {
        assert(lex_lt(m.key_view()[i], m.key_view()[j]));
        lemma_lex_irreflexive(m.key_view()[i]);
    } else if j < i {
        assert(lex_lt(m.key_view()[j], m.key_view()[i]));
        lemma_lex_irreflexive(m.key_view()[i]);
    }
}

/// The position of a key held by the map.
pub open spec fn pos_of<V>(m: OrdMap<V>, key: Seq<u32>) -> int {
    choose|i: int| 0 <= i < m.size() && m.key_view()[i] == key
}

/// The list held under `key`, or the empty list.
pub open spec fn list_at<K, T>(m: OrdMap<(K, Vec<T>)>, key: Seq<u32>) -> Seq<T> {
    if m.contains(key) {
        m.vals@[pos_of(m, key)].1@
    } else {
        Seq::empty()
    }
}

/// Every position holding `key` is `pos_of(m, key)`.
pub proof fn lemma_pos_of<V>(m: OrdMap<V>, i: int)
    requires
        m.wf(),
        0 <= i < m.size(),
    ensures
        pos_of(m, m.key_view()[i]) == i,
        m.contains(m.key_view()[i]),
{
    let k = m.key_view()[i];
    assert(m.key_view().contains(k));
    let p = pos_of(m, k);
    lemma_unique_key(m, i, p);
}

/// The list held under `key`, or the empty list.
pub fn entry_list<'a, K, T>(m: &'a OrdMap<(K, Vec<T>)>, key: &[u32]) -> (r: &'a [T])
    requires
        m.wf(),
    ensures
        r@ == list_at(*m, key@),
{
    match m.find(key) {
        Ok(i) => {
            proof { lemma_pos_of(*m, i as int); }
            m.value_at(i).1.as_slice()
        },
        Err(_) => {
            let e: &[T] = &[];
            assert(e@.len() == 0);
            e
        },
    }
}

proof fn lemma_adjacent_sorted(ks: Seq<Seq<u32>>, i: int, j: int)
    requires
        forall|t: int| 0 <= t < ks.len() - 1 ==> lex_lt(#[trigger] ks[t], ks[t + 1]),
        0 <= i < j < ks.len(),
    ensures
        lex_lt(ks[i], ks[j]),
    decreases j - i,
{
    if j > i + 1 {
        lemma_adjacent_sorted(ks, i, j - 1);
        assert(lex_lt(ks[j - 1], ks[j]));
        lemma_lex_transitive(ks[i], ks[j - 1], ks[j]);
    }
}

impl<V> OrdMap<V> {
    /// Whether keys and values line up and the keys increase strictly.
    pub fn is_wf(&self) -> (r: bool)
        ensures
            r == self.wf(),
    {
        if self.keys.len() != self.vals.len() {
            return false;
        }
        let n = self.keys.len();
        let mut i: usize = 1;
        while i < n
            invariant
                n == self.keys@.len(),
                1 <= i <= n || n == 0,
                forall|t: int| 0 <= t < i - 1 ==> lex_lt(#[trigger] self.key_view()[t], self.key_view()[t + 1]),
            decreases n - i,
        {
            if compare_codes(self.keys[i - 1].as_slice(), self.keys[i].as_slice()) != KeyOrder::Less {
                proof {
                    assert(!lex_lt(self.key_view()[i - 1], self.key_view()[i as int]));
                }
                return false;
            }
            i = i + 1;
        }
        proof {
            assert forall|a: int, b: int| 0 <= a < b < self.key_view().len() implies lex_lt(
                #[trigger] self.key_view()[a],
                #[trigger] self.key_view()[b],
            ) by {
                lemma_adjacent_sorted(self.key_view(), a, b);
            }
        }
        true
    }
}

/// The map itself when well formed; otherwise its entries inserted one by one
/// (keys and values paired as far as both go).
pub fn normalized<V>(m: OrdMap<V>) -> (r: OrdMap<V>)
    ensures
        r.wf(),
        m.wf() ==> r == m,
{
    if m.is_wf() {
        return m;
    }
    let mut m = m;
    let mut r: OrdMap<V> = OrdMap::new();
    while m.keys.len() > 0 && m.vals.len() > 0
        invariant
            r.wf(),
        decreases m.keys@.len(),
    {
        let k = m.keys.pop().unwrap();
        let v = m.vals.pop().unwrap();
        let _ = r.insert(k, v);
    }
    r
}

/// The value held under a key.
pub open spec fn value_of<V>(m: OrdMap<V>, k: Seq<u32>) -> V {
    m.vals@[pos_of(m, k)]
}

/// What `insert` does to the keys held and the value under each.
pub proof fn lemma_insert_effect<V>(a: OrdMap<V>, b: OrdMap<V>, key: Seq<u32>, val: V, pos: int)
    requires
        a.wf(),
        b.wf(),
        0 <= pos < b.size(),
        b.key_view()[pos] == key,
        b.vals@[pos] == val,
        a.contains(key) ==> (b.key_view() == a.key_view() && b.vals@ == a.vals@.update(pos, val)),
        !a.contains(key) ==> (pos <= a.size() && b.key_view() == a.key_view().insert(pos, key)
            && b.vals@ == a.vals@.insert(pos, val)),
    ensures
        forall|k: Seq<u32>| #[trigger] b.contains(k) <==> (a.contains(k) || k == key),
        value_of(b, key) == val,
        forall|k: Seq<u32>| a.contains(k) && k != key ==> #[trigger] value_of(b, k) == value_of(a, k),
{
    lemma_pos_of(b, pos);
    assert forall|k: Seq<u32>| #[trigger] b.contains(k) <==> (a.contains(k) || k == key) by {
        if a.contains(k) {
            let w = choose|w: int| 0 <= w < a.key_view().len() && a.key_view()[w] == k;
            if a.contains(key) {
                assert(b.key_view()[w] == k);
            } else if w < pos {
                assert(b.key_view()[w] == k);
            } else {
                assert(b.key_view()[w + 1] == k);
            }
        }
        if k == key {
            assert(b.key_view()[pos] == k);
        }
        if b.contains(k) {
            let w = choose|w: int| 0 <= w < b.key_view().len() && b.key_view()[w] == k;
            if a.contains(key) {
                assert(a.key_view()[w] == k);
            } else if w < pos {
                assert(a.key_view()[w] == k);
            } else if w > pos {
                assert(a.key_view()[w - 1] == k);
            }
        }
    }
    assert forall|k: Seq<u32>| a.contains(k) && k != key implies #[trigger] value_of(b, k) == value_of(a, k) by {
        let w = pos_of(a, k);
        assert(0 <= w < a.size() && a.key_view()[w] == k);
        lemma_pos_of(a, w);
        if a.contains(key) {
            assert(b.key_view()[w] == k);
            lemma_pos_of(b, w);
            assert(w != pos);
        } else if w < pos {
            assert(b.key_view()[w] == k);
            lemma_pos_of(b, w);
        } else {
            assert(b.key_view()[w + 1] == k);
            lemma_pos_of(b, w + 1);
        }
    }
}

} // verus!
