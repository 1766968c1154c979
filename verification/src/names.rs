//! A map keyed by character name that keeps insertion order, with exact
//! and ASCII case-insensitive lookup.
use vstd::prelude::*;
use vstd::utf8::*;

verus! {

/// The ASCII lowercase code of a byte.
pub open spec fn lower_byte(b: u8) -> int {
    if 65 <= b <= 90 {
        b + 32
    } else {
        b as int
    }
}

/// Two byte strings are equal ignoring ASCII case (`eq_ignore_ascii_case`).
pub open spec fn ascii_ci_eq(a: Seq<u8>, b: Seq<u8>) -> bool {
    &&& a.len() == b.len()
    &&& forall|i: int| 0 <= i < a.len() ==> #[trigger] lower_byte(a[i]) == lower_byte(b[i])
}

/// Two texts are equal ignoring ASCII case, compared on their UTF-8 bytes.
pub open spec fn text_ci_eq(a: Seq<char>, b: Seq<char>) -> bool {
    ascii_ci_eq(encode_utf8(a), encode_utf8(b))
}

fn lower(b: u8) -> (r: u8)
    ensures
        r == lower_byte(b),
{
    if 65 <= b && b <= 90 {
        b + 32
    } else {
        b
    }
}

/// `str::eq_ignore_ascii_case`.
pub fn eq_ignore_ascii_case(a: &str, b: &str) -> (r: bool)
    ensures
        r == text_ci_eq(a@, b@),
{
    let x = a.as_bytes();
    let y = b.as_bytes();
    if x.len() != y.len() {
        return false;
    }
    let mut i: usize = 0;
    while i < x.len()
        invariant
            x.len() == y.len(),
            x@ == encode_utf8(a@),
            y@ == encode_utf8(b@),
            i <= x.len(),
            forall|k: int| 0 <= k < i ==> lower_byte(x@[k]) == lower_byte(y@[k]),
        decreases x.len() - i,
    {
        if lower(x[i]) != lower(y[i]) {
            assert(lower_byte(x@[i as int]) != lower_byte(y@[i as int]));
            return false;
        }
        i += 1;
    }
    true
}

/// Exact equality of two texts.
pub fn str_eq(a: &str, b: &str) -> (r: bool)
    ensures
        r == (a@ == b@),
{
    let x = a.as_bytes();
    let y = b.as_bytes();
    proof {
        encode_utf8_decode_utf8(a@);
        encode_utf8_decode_utf8(b@);
    }
    if x.len() != y.len() {
        return false;
    }
    let mut i: usize = 0;
    while i < x.len()
        invariant
            x.len() == y.len(),
            x@ == encode_utf8(a@),
            y@ == encode_utf8(b@),
            i <= x.len(),
            forall|k: int| 0 <= k < i ==> x@[k] == y@[k],
        decreases x.len() - i,
    {
        if x[i] != y[i] {
            return false;
        }
        i += 1;
    }
    assert(x@ =~= y@);
    true
}

/// Entries keyed by name, in insertion order, each name at most once.
pub struct NameMap<V> {
    entries: Vec<(String, V)>,
}

/// The names and values of entries.
pub open spec fn entries_view<V>(e: Seq<(String, V)>) -> Seq<(Seq<char>, V)> {
    Seq::new(e.len(), |i: int| (e[i].0@, e[i].1))
}

/// No name occurs twice.
pub open spec fn distinct_keys<V>(s: Seq<(Seq<char>, V)>) -> bool {
    forall|i: int, j: int| 0 <= i < s.len() && 0 <= j < s.len() && i != j ==> s[i].0 != s[j].0
}

/// Some entry is named `k`.
pub open spec fn has_key<V>(s: Seq<(Seq<char>, V)>, k: Seq<char>) -> bool {
    exists|i: int| 0 <= i < s.len() && #[trigger] s[i].0 == k
}

/// The index of the entry named `k`.
pub open spec fn key_index<V>(s: Seq<(Seq<char>, V)>, k: Seq<char>) -> Option<int> {
    if exists|i: int| 0 <= i < s.len() && s[i].0 == k {
        Some(choose|i: int| 0 <= i < s.len() && s[i].0 == k)
    } else {
        None
    }
}

/// The value of the entry named `k`.
pub open spec fn lookup<V>(s: Seq<(Seq<char>, V)>, k: Seq<char>) -> Option<V> {
    match key_index(s, k) {
        Some(i) => Some(s[i].1),
        None => None,
    }
}

/// The entries after setting `k` to `v`: an entry named `k` keeps its
/// place, otherwise a new entry goes last.
pub open spec fn assign<V>(s: Seq<(Seq<char>, V)>, k: Seq<char>, v: V) -> Seq<(Seq<char>, V)> {
    match key_index(s, k) {
        Some(i) => s.update(i, (k, v)),
        None => s.push((k, v)),
    }
}

/// The entries without the one named `k`.
pub open spec fn without<V>(s: Seq<(Seq<char>, V)>, k: Seq<char>) -> Seq<(Seq<char>, V)> {
    match key_index(s, k) {
        Some(i) => s.remove(i),
        None => s,
    }
}

/// The index of the first entry whose name equals `needle` ignoring ASCII case.
pub open spec fn first_ci_from<V>(s: Seq<(Seq<char>, V)>, needle: Seq<char>, i: int) -> Option<
    int,
>
    decreases s.len() - i,
{
    if i < 0 || i >= s.len() {
        None
    } else if text_ci_eq(s[i].0, needle) {
        Some(i)
    } else {
        first_ci_from(s, needle, i + 1)
    }
}

/// The value of the first entry whose name equals `needle` ignoring ASCII case.
pub open spec fn lookup_ci<V>(s: Seq<(Seq<char>, V)>, needle: Seq<char>) -> Option<V> {
    match first_ci_from(s, needle, 0) {
        Some(i) => Some(s[i].1),
        None => None,
    }
}

/// The entries whose names do not equal `needle` ignoring ASCII case.
pub open spec fn without_ci<V>(s: Seq<(Seq<char>, V)>, needle: Seq<char>) -> Seq<(Seq<char>, V)>
    decreases s.len(),
{
    if s.len() == 0 {
        Seq::empty()
    } else {
        let r = without_ci(s.drop_last(), needle);
        if text_ci_eq(s.last().0, needle) {
            r
        } else {
            r.push(s.last())
        }
    }
}

/// Lookup of `k` in distinct entries finds the entry at `i` when it is named `k`.
pub proof fn lemma_key_index<V>(s: Seq<(Seq<char>, V)>, k: Seq<char>, i: int)
    requires
        distinct_keys(s),
        0 <= i < s.len(),
        s[i].0 == k,
    ensures
        key_index(s, k) == Some(i),
{
}

/// The value named `k` in distinct entries whose entry `i` is named `k`.
pub proof fn lemma_lookup_at<V>(s: Seq<(Seq<char>, V)>, k: Seq<char>, i: int)
    requires
        distinct_keys(s),
        0 <= i < s.len(),
        s[i].0 == k,
    ensures
        lookup(s, k) == Some(s[i].1),
{
    lemma_key_index(s, k, i);
}

/// Setting a name gives that name's value back on lookup, leaves the value
/// of every other name unchanged, and keeps names distinct.
pub proof fn law_assign_then_lookup<V>(s: Seq<(Seq<char>, V)>, k: Seq<char>, v: V, other: Seq<char>)
    requires
        distinct_keys(s),
    ensures
        distinct_keys(assign(s, k, v)),
        lookup(assign(s, k, v), k) == Some(v),
        other != k ==> lookup(assign(s, k, v), other) == lookup(s, other),
{
    let a = assign(s, k, v);
    match key_index(s, k) {
        Some(i) => {
            assert(0 <= i < s.len() && s[i].0 == k);
            assert(distinct_keys(a));
            lemma_lookup_at(a, k, i);
        },
        None => {
            assert(distinct_keys(a));
            lemma_lookup_at(a, k, s.len() as int);
        },
    }
    if other != k {
        if exists|j: int| 0 <= j < s.len() && s[j].0 == other {
            let j = choose|j: int| 0 <= j < s.len() && s[j].0 == other;
            lemma_lookup_at(s, other, j);
            lemma_lookup_at(a, other, j);
        } else {
            assert(!exists|j: int| 0 <= j < a.len() && a[j].0 == other) by {
                if exists|j: int| 0 <= j < a.len() && a[j].0 == other {
                    let j = choose|j: int| 0 <= j < a.len() && a[j].0 == other;
                    assert(j < s.len() && s[j].0 == other);
                }
            }
        }
    }
}

/// Removing a name leaves no value under it, leaves the value of every
/// other name unchanged, and keeps names distinct.
pub proof fn law_without_then_lookup<V>(s: Seq<(Seq<char>, V)>, k: Seq<char>, other: Seq<char>)
    requires
        distinct_keys(s),
    ensures
        distinct_keys(without(s, k)),
        lookup(without(s, k), k) is None,
        other != k ==> lookup(without(s, k), other) == lookup(s, other),
{
    let w = without(s, k);
    match key_index(s, k) {
        Some(i) => {
            assert(0 <= i < s.len() && s[i].0 == k);
            assert forall|a: int, b: int| 0 <= a < w.len() && 0 <= b < w.len() && a != b implies w[a].0
                != w[b].0 by {
                let sa = if a < i { a } else { a + 1 };
                let sb = if b < i { b } else { b + 1 };
                assert(w[a] == s[sa] && w[b] == s[sb]);
            }
            assert(!exists|j: int| 0 <= j < w.len() && w[j].0 == k) by {
                if exists|j: int| 0 <= j < w.len() && w[j].0 == k {
                    let j = choose|j: int| 0 <= j < w.len() && w[j].0 == k;
                    let sj = if j < i { j } else { j + 1 };
                    assert(w[j] == s[sj]);
                }
            }
            if other != k {
                if exists|j: int| 0 <= j < s.len() && s[j].0 == other {
                    let j = choose|j: int| 0 <= j < s.len() && s[j].0 == other;
                    lemma_lookup_at(s, other, j);
                    let wj = if j < i { j } else { j - 1 };
                    assert(w[wj] == s[j]);
                    lemma_lookup_at(w, other, wj);
                } else {
                    assert(!exists|j: int| 0 <= j < w.len() && w[j].0 == other) by {
                        if exists|j: int| 0 <= j < w.len() && w[j].0 == other {
                            let j = choose|j: int| 0 <= j < w.len() && w[j].0 == other;
                            let sj = if j < i { j } else { j + 1 };
                            assert(w[j] == s[sj]);
                        }
                    }
                }
            }
        },
        None => {},
    }
}

/// No entry from `i` on whose name equals `needle` ignoring ASCII case
/// means no case-insensitive match from `i`.
pub proof fn lemma_first_ci_none<V>(s: Seq<(Seq<char>, V)>, needle: Seq<char>, i: int)
    requires
        0 <= i,
        forall|j: int| i <= j < s.len() ==> !text_ci_eq(#[trigger] s[j].0, needle),
    ensures
        first_ci_from(s, needle, i) is None,
    decreases s.len() - i,
{
    if i < s.len() {
        lemma_first_ci_none(s, needle, i + 1);
    }
}

/// Every entry left by `without_ci` is an entry of `s` whose name does not
/// equal `needle` ignoring ASCII case.
pub proof fn lemma_without_ci_entries<V>(s: Seq<(Seq<char>, V)>, needle: Seq<char>)
    ensures
        forall|j: int|
            0 <= j < without_ci(s, needle).len() ==> !text_ci_eq(
                (#[trigger] without_ci(s, needle)[j]).0,
                needle,
            ) && s.contains(without_ci(s, needle)[j]),
    decreases s.len(),
{
    if s.len() > 0 {
        let r = without_ci(s.drop_last(), needle);
        lemma_without_ci_entries(s.drop_last(), needle);
        assert forall|j: int| 0 <= j < without_ci(s, needle).len() implies !text_ci_eq(
            (#[trigger] without_ci(s, needle)[j]).0,
            needle,
        ) && s.contains(without_ci(s, needle)[j]) by {
            let w = without_ci(s, needle);
            if j < r.len() {
                assert(w[j] == r[j]);
                assert(!text_ci_eq(r[j].0, needle) && s.drop_last().contains(r[j]));
                let k = choose|k: int| 0 <= k < s.drop_last().len() && s.drop_last()[k] == r[j];
                assert(s[k] == r[j]);
            } else {
                assert(w[j] == s.last());
                assert(s[s.len() - 1] == s.last());
            }
        }
    }
}

impl<V> NameMap<V> {
    /// The entries, as names and values.
    pub closed spec fn view(&self) -> Seq<(Seq<char>, V)> {
        entries_view(self.entries@)
    }

    #[verifier::type_invariant]
    closed spec fn wf(&self) -> bool {
        distinct_keys(entries_view(self.entries@))
    }

    /// An empty map.
    pub fn new() -> (m: Self)
        ensures
            m.view() == Seq::<(Seq<char>, V)>::empty(),
            distinct_keys(m.view()),
    {
        let m = NameMap { entries: Vec::new() };
        assert(m.view() =~= Seq::<(Seq<char>, V)>::empty());
        m
    }

    /// Number of entries.
    pub fn len(&self) -> (n: usize)
        ensures
            n == self.view().len(),
            distinct_keys(self.view()),
    {
        proof {
            use_type_invariant(self);
        }
        self.entries.len()
    }

    /// Whether there is no entry.
    pub fn is_empty(&self) -> (b: bool)
        ensures
            b == (self.view().len() == 0),
    {
        self.entries.len() == 0
    }

    /// The name and value of the entry at `i`.
    pub fn entry(&self, i: usize) -> (r: (&str, &V))
        requires
            i < self.view().len(),
        ensures
            r.0@ == self.view()[i as int].0,
            *r.1 == self.view()[i as int].1,
    {
        (self.entries[i].0.as_str(), &self.entries[i].1)
    }

    fn position(&self, key: &str) -> (r: Option<usize>)
        ensures
            opt_index(r) == key_index(self.view(), key@),
            r matches Some(i) ==> i < self.view().len() && self.view()[i as int].0 == key@,
    {
        proof {
            use_type_invariant(self);
        }
        let mut i: usize = 0;
        while i < self.entries.len()
            invariant
                i <= self.entries@.len(),
                distinct_keys(self.view()),
                self.view() == entries_view(self.entries@),
                forall|j: int| 0 <= j < i ==> self.view()[j].0 != key@,
            decreases self.entries@.len() - i,
        {
            if str_eq(self.entries[i].0.as_str(), key) {
                proof {
                    lemma_key_index(self.view(), key@, i as int);
                }
                return Some(i);
            }
            i += 1;
        }
        None
    }

    /// Replaces the value at `i`, returning the previous one.
    pub fn replace_at(&mut self, i: usize, value: V) -> (old_value: V)
        requires
            i < old(self).view().len(),
        ensures
            old_value == old(self).view()[i as int].1,
            final(self).view() == old(self).view().update(
                i as int,
                (old(self).view()[i as int].0, value),
            ),
    {
        proof {
            use_type_invariant(&*self);
        }
        let mut e: Vec<(String, V)> = Vec::new();
        std::mem::swap(&mut e, &mut self.entries);
        let (k, v) = e.remove(i);
        let ghost kv = k@;
        e.insert(i, (k, value));
        assert(entries_view(e@) =~= old(self).view().update(i as int, (kv, value)));
        self.entries = e;
        v
    }

    /// Removes the entry at `i`, returning its value.
    pub fn remove_at(&mut self, i: usize) -> (v: V)
        requires
            i < old(self).view().len(),
        ensures
            v == old(self).view()[i as int].1,
            final(self).view() == old(self).view().remove(i as int),
    {
        proof {
            use_type_invariant(&*self);
        }
        let mut e: Vec<(String, V)> = Vec::new();
        std::mem::swap(&mut e, &mut self.entries);
        let (_k, v) = e.remove(i);
        assert(entries_view(e@) =~= old(self).view().remove(i as int));
        self.entries = e;
        v
    }

    /// The index of the entry named exactly `key`.
    pub fn index_of(&self, key: &str) -> (r: Option<usize>)
        ensures
            opt_index(r) == key_index(self.view(), key@),
            r matches Some(i) ==> i < self.view().len() && self.view()[i as int].0 == key@,
    {
        self.position(key)
    }

    /// The value named exactly `key`.
    pub fn get(&self, key: &str) -> (r: Option<&V>)
        ensures
            match r {
                Some(v) => lookup(self.view(), key@) == Some(*v),
                None => lookup(self.view(), key@) is None,
            },
    {
        match self.position(key) {
            Some(i) => Some(&self.entries[i].1),
            None => None,
        }
    }

    /// The value of the first entry whose name equals `needle` ignoring ASCII case.
    pub fn get_ignore_ascii_case(&self, needle: &str) -> (r: Option<&V>)
        ensures
            match r {
                Some(v) => lookup_ci(self.view(), needle@) == Some(*v),
                None => lookup_ci(self.view(), needle@) is None,
            },
    {
        let mut i: usize = 0;
        while i < self.entries.len()
            invariant
                i <= self.entries@.len(),
                self.view() == entries_view(self.entries@),
                first_ci_from(self.view(), needle@, i as int) == first_ci_from(
                    self.view(),
                    needle@,
                    0,
                ),
            decreases self.entries@.len() - i,
        {
            if eq_ignore_ascii_case(self.entries[i].0.as_str(), needle) {
                return Some(&self.entries[i].1);
            }
            i += 1;
        }
        None
    }

    /// Sets the value named `key`.
    pub fn insert(&mut self, key: String, value: V)
        ensures
            final(self).view() == assign(old(self).view(), key@, value),
            distinct_keys(old(self).view()),
            distinct_keys(final(self).view()),
    {
        proof {
            use_type_invariant(&*self);
        }
        match self.position(key.as_str()) {
            Some(i) => {
                let ghost k = key@;
                let mut e: Vec<(String, V)> = Vec::new();
                std::mem::swap(&mut e, &mut self.entries);
                e.set(i, (key, value));
                assert(entries_view(e@) =~= assign(old(self).view(), k, value));
                self.entries = e;
            },
            None => {
                let ghost k = key@;
                let mut e: Vec<(String, V)> = Vec::new();
                std::mem::swap(&mut e, &mut self.entries);
                e.push((key, value));
                assert(entries_view(e@) =~= assign(old(self).view(), k, value));
                self.entries = e;
            },
        }
    }

    /// Removes the value named `key`, returning it.
    pub fn remove(&mut self, key: &str) -> (r: Option<V>)
        ensures
            r == lookup(old(self).view(), key@),
            final(self).view() == without(old(self).view(), key@),
    {
        proof {
            use_type_invariant(&*self);
        }
        match self.position(key) {
            Some(i) => {
                let mut e: Vec<(String, V)> = Vec::new();
                std::mem::swap(&mut e, &mut self.entries);
                let (_k, v) = e.remove(i);
                assert(entries_view(e@) =~= without(old(self).view(), key@));
                self.entries = e;
                Some(v)
            },
            None => None,
        }
    }

    /// Removes every entry whose name equals `needle` ignoring ASCII case.
    pub fn remove_ignore_ascii_case(&mut self, needle: &str)
        ensures
            final(self).view() == without_ci(old(self).view(), needle@),
    {
        proof {
            use_type_invariant(&*self);
        }
        let ghost orig = self.view();
        let mut e: Vec<(String, V)> = Vec::new();
        std::mem::swap(&mut e, &mut self.entries);
        assert(orig == entries_view(e@));
        let _n: usize = e.len();
        let mut i: usize = 0;
        let mut j: usize = 0;
        while i < e.len()
            invariant
                i <= e@.len(),
                j <= orig.len(),
                orig.len() <= usize::MAX,
                e@.len() - i == orig.len() - j,
                entries_view(e@).subrange(0, i as int) == without_ci(
                    orig.subrange(0, j as int),
                    needle@,
                ),
                entries_view(e@).subrange(i as int, e@.len() as int) == orig.subrange(
                    j as int,
                    orig.len() as int,
                ),
                distinct_keys(entries_view(e@)),
            decreases e@.len() - i,
        {
            let ghost before = entries_view(e@);
            assert(orig.subrange(0, j + 1).drop_last() == orig.subrange(0, j as int));
            assert(before[i as int] == orig[j as int]) by {
                assert(before.subrange(i as int, before.len() as int)[0] == before[i as int]);
            }
            if eq_ignore_ascii_case(e[i].0.as_str(), needle) {
                e.remove(i);
                assert(entries_view(e@) =~= before.remove(i as int));
                assert(entries_view(e@).subrange(0, i as int) =~= before.subrange(0, i as int));
                assert(entries_view(e@).subrange(i as int, e@.len() as int) =~= orig.subrange(
                    j + 1,
                    orig.len() as int,
                )) by {
                    assert(before.subrange(i as int, before.len() as int).drop_first()
                        =~= orig.subrange(j + 1, orig.len() as int));
                }
            } else {
                assert(before.subrange(0, i + 1) =~= before.subrange(0, i as int).push(
                    before[i as int],
                ));
                assert(before.subrange(i + 1, before.len() as int) =~= orig.subrange(
                    j + 1,
                    orig.len() as int,
                )) by {
                    assert(before.subrange(i as int, before.len() as int).drop_first()
                        =~= orig.subrange(j + 1, orig.len() as int));
                }
                i += 1;
            }
            j += 1;
        }
        assert(orig.subrange(0, orig.len() as int) == orig);
        assert(entries_view(e@).subrange(0, i as int) == entries_view(e@));
        self.entries = e;
    }
}

/// An optional index as an optional integer.
pub open spec fn opt_index(o: Option<usize>) -> Option<int> {
    match o {
        Some(i) => Some(i as int),
        None => None,
    }
}

} // verus!
