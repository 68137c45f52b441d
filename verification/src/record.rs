//! A parsed log line and the key/value fields extracted from it.
use vstd::prelude::*;

verus! {

/// `a` sorts before `b` as names do: character by character by code point
/// (which is the order of their UTF-8 bytes), a proper prefix first.
pub open spec fn name_lt(a: Seq<char>, b: Seq<char>) -> bool
    decreases a.len(),
{
    if b.len() == 0 {
        false
    } else if a.len() == 0 {
        true
    } else if a[0] != b[0] {
        a[0] < b[0]
    } else {
        name_lt(a.drop_first(), b.drop_first())
    }
}

pub proof fn lemma_name_lt_irreflexive(a: Seq<char>)
    ensures
        !name_lt(a, a),
    decreases a.len(),
{
    if a.len() > 0 {
        lemma_name_lt_irreflexive(a.drop_first());
    }
}

pub proof fn lemma_name_lt_total(a: Seq<char>, b: Seq<char>)
    ensures
        a == b || name_lt(a, b) || name_lt(b, a),
        !(name_lt(a, b) && name_lt(b, a)),
    decreases a.len(),
{
    if a.len() > 0 && b.len() > 0 && a[0] == b[0] {
        lemma_name_lt_total(a.drop_first(), b.drop_first());
        if a.drop_first() == b.drop_first() {
            assert(a =~= seq![a[0]] + a.drop_first());
            assert(b =~= seq![b[0]] + b.drop_first());
        }
    } else if a.len() == 0 && b.len() == 0 {
        assert(a =~= b);
    } else if a.len() > 0 && b.len() > 0 {
    }
}

pub proof fn lemma_name_lt_transitive(a: Seq<char>, b: Seq<char>, c: Seq<char>)
    requires
        name_lt(a, b),
        name_lt(b, c),
    ensures
        name_lt(a, c),
    decreases a.len(),
{
    if a.len() > 0 && b.len() > 0 && c.len() > 0 && a[0] == b[0] && b[0] == c[0] {
        lemma_name_lt_transitive(a.drop_first(), b.drop_first(), c.drop_first());
    }
}

/// Whether `a` sorts before `b` as names do (see `name_lt`).
fn name_less(a: &Vec<char>, b: &Vec<char>) -> (r: bool)
    ensures
        r == name_lt(a@, b@),
{
    let mut i: usize = 0;
    assert(a@.skip(0) =~= a@);
    assert(b@.skip(0) =~= b@);
    while i < a.len() && i < b.len() && a[i] == b[i]
        invariant
            i <= a.len(),
            i <= b.len(),
            name_lt(a@, b@) == name_lt(a@.skip(i as int), b@.skip(i as int)),
        decreases a.len() - i,
    {
        assert(a@.skip(i as int).drop_first() =~= a@.skip(i + 1));
        assert(b@.skip(i as int).drop_first() =~= b@.skip(i + 1));
        i += 1;
    }
    if i == b.len() {
        false
    } else if i == a.len() {
        true
    } else {
        assert(a@.skip(i as int)[0] == a[i as int]);
        assert(b@.skip(i as int)[0] == b[i as int]);
        a[i] < b[i]
    }
}

/// A map from field names to field values, kept in the order of the names,
/// each name present once.
pub struct Fields {
    entries: Vec<(String, String)>,
}

/// Whether the name of entry `i` sorts before `key`.
fn entry_before(entries: &Vec<(String, String)>, i: usize, key: &Vec<char>) -> (r: bool)
    requires
        i < entries.len(),
    ensures
        r == name_lt(entries[i as int].0@, key@),
{
    let c = crate::text::chars_of(entries[i].0.as_str());
    name_less(&c, key)
}

impl Fields {
    /// The names are in increasing order.
    #[verifier::type_invariant]
    closed spec fn names_sorted(self) -> bool {
        forall|i: int, j: int|
            0 <= i < j < self.entries.len() ==> name_lt(
                (#[trigger] self.entries[i]).0@,
                (#[trigger] self.entries[j]).0@,
            )
    }

    /// No field name occurs twice.
    closed spec fn names_distinct(self) -> bool {
        forall|i: int, j: int|
            0 <= i < j < self.entries.len() ==> (#[trigger] self.entries[i]).0@ != (
            #[trigger] self.entries[j]).0@
    }

    proof fn lemma_sorted_distinct(self)
        requires
            self.names_sorted(),
        ensures
            self.names_distinct(),
    {
        assert forall|i: int, j: int| 0 <= i < j < self.entries.len() implies (
        #[trigger] self.entries[i]).0@ != (#[trigger] self.entries[j]).0@ by {
            lemma_name_lt_irreflexive(self.entries[i].0@);
        }
    }

    /// The entry at position `i` carries the name `k`.
    closed spec fn holds_at(self, i: int, k: Seq<char>) -> bool {
        0 <= i < self.entries.len() && self.entries[i].0@ == k
    }

    /// The map that a list of distinct-named entries denotes, read through positions.
    proof fn lemma_view_at(self, i: int)
        requires
            self.names_distinct(),
            0 <= i < self.entries.len(),
        ensures
            self@.contains_key(self.entries[i].0@),
            self@[self.entries[i].0@] == self.entries[i].1@,
    {
        let k = self.entries[i].0@;
        assert(self.holds_at(i, k));
        let c = choose|j: int| self.holds_at(j, k);
        assert(self.holds_at(c, k));
        if c != i {
            if c < i {
                assert(self.entries[c].0@ != self.entries[i].0@);
            } else {
                assert(self.entries[i].0@ != self.entries[c].0@);
            }
        }
    }

    /// An empty map.
    pub fn new() -> (f: Fields)
        ensures
            f@ == Map::<Seq<char>, Seq<char>>::empty(),
    {
        let f = Fields { entries: Vec::new() };
        assert(f@ =~= Map::<Seq<char>, Seq<char>>::empty());
        f
    }

    /// Sets the value of `key` to `value`, replacing any earlier value.
    pub fn insert(&mut self, key: String, value: String)
        ensures
            final(self)@ == old(self)@.insert(key@, value@),
    {
        proof {
            use_type_invariant(&*self);
            self.lemma_sorted_distinct();
        }
        let kc = crate::text::chars_of(key.as_str());
        let n = self.entries.len();
        let mut i: usize = 0;
        while i < n && entry_before(&self.entries, i, &kc)
            invariant
                n == self.entries.len(),
                i <= n,
                self.names_sorted(),
                self.names_distinct(),
                *self == *old(self),
                kc@ == key@,
                forall|j: int| 0 <= j < i ==> name_lt((#[trigger] self.entries[j]).0@, key@),
            decreases n - i,
        {
            i += 1;
        }
        let ghost before = *self;
        let ghost k = key@;
        let ghost v = value@;
        if i < n && self.entries[i].0 == key {
            let mut entries: Vec<(String, String)> = Vec::new();
            std::mem::swap(&mut entries, &mut self.entries);
            entries.set(i, (key, value));
            proof {
                assert forall|a: int, b: int|
                    0 <= a < b < entries.len() implies name_lt(
                    (#[trigger] entries[a]).0@,
                    (#[trigger] entries[b]).0@,
                ) by {
                    assert(name_lt(before.entries[a].0@, before.entries[b].0@));
                }
            }
            self.entries = entries;
            proof {
                self.lemma_sorted_distinct();
                assert forall|x: Seq<char>|
                    #![auto]
                    self@.contains_key(x) == before@.insert(k, v).contains_key(x) by {
                    if before@.contains_key(x) {
                        let c = choose|j: int| before.holds_at(j, x);
                        assert(self.holds_at(c, x));
                    }
                    if x == k {
                        assert(self.holds_at(i as int, x));
                    }
                    if self@.contains_key(x) {
                        let c = choose|j: int| self.holds_at(j, x);
                        if c != i {
                            assert(before.holds_at(c, x));
                        }
                    }
                }
                assert forall|x: Seq<char>|
                    #![auto]
                    self@.contains_key(x) implies self@[x] == before@.insert(k, v)[x] by {
                    let c = choose|j: int| self.holds_at(j, x);
                    assert(self.holds_at(c, x));
                    self.lemma_view_at(c);
                    if c != i {
                        before.lemma_view_at(c);
                    }
                }
                assert(self@ =~= before@.insert(k, v));
            }
            return;
        }
        proof {
            if i < n {
                lemma_name_lt_total(before.entries[i as int].0@, k);
                assert(name_lt(k, before.entries[i as int].0@));
            }
        }
        let mut entries: Vec<(String, String)> = Vec::new();
        std::mem::swap(&mut entries, &mut self.entries);
        entries.insert(i, (key, value));
        proof {
            assert forall|a: int, b: int|
                0 <= a < b < entries.len() implies name_lt(
                (#[trigger] entries[a]).0@,
                (#[trigger] entries[b]).0@,
            ) by {
                if b < i {
                    assert(name_lt(before.entries[a].0@, before.entries[b].0@));
                } else if b == i {
                    assert(name_lt(before.entries[a].0@, k));
                } else if a == i {
                    if b - 1 > i {
                        assert(name_lt(before.entries[i as int].0@, before.entries[b - 1].0@));
                        lemma_name_lt_transitive(
                            k,
                            before.entries[i as int].0@,
                            before.entries[b - 1].0@,
                        );
                    }
                } else if a < i {
                    assert(name_lt(before.entries[a].0@, before.entries[b - 1].0@));
                } else {
                    assert(name_lt(before.entries[a - 1].0@, before.entries[b - 1].0@));
                }
            }
        }
        self.entries = entries;
        proof {
            self.lemma_sorted_distinct();
            assert forall|x: Seq<char>|
                #![auto]
                self@.contains_key(x) == before@.insert(k, v).contains_key(x) by {
                if before@.contains_key(x) {
                    let c = choose|j: int| before.holds_at(j, x);
                    if c < i {
                        assert(self.holds_at(c, x));
                    } else {
                        assert(self.holds_at(c + 1, x));
                    }
                }
                if x == k {
                    assert(self.holds_at(i as int, x));
                }
                if self@.contains_key(x) {
                    let c = choose|j: int| self.holds_at(j, x);
                    if c < i {
                        assert(before.holds_at(c, x));
                    } else if c > i {
                        assert(before.holds_at(c - 1, x));
                    }
                }
            }
            assert forall|x: Seq<char>|
                #![auto]
                self@.contains_key(x) implies self@[x] == before@.insert(k, v)[x] by {
                let c = choose|j: int| self.holds_at(j, x);
                assert(self.holds_at(c, x));
                assert(self.entries[i as int].0@ == k);
                self.lemma_view_at(c);
                if c < i {
                    assert(self.entries[c] == before.entries[c]);
                    before.lemma_view_at(c);
                    assert(x != k);
                } else if c > i {
                    assert(self.entries[c] == before.entries[c - 1]);
                    before.lemma_view_at(c - 1);
                    assert(x != k);
                } else {
                    assert(self.entries[c] == (key, value));
                }
            }
            assert(self@ =~= before@.insert(k, v));
        }
    }

    /// The value of `key`, if the map holds it.
    pub fn get(&self, key: &str) -> (r: Option<&String>)
        ensures
            match r {
                Some(v) => self@.contains_key(key@) && v@ == self@[key@],
                None => !self@.contains_key(key@),
            },
    {
        proof {
            use_type_invariant(self);
            self.lemma_sorted_distinct();
        }
        let k = String::from_str(key);
        let n = self.entries.len();
        let mut i: usize = 0;
        while i < n
            invariant
                n == self.entries.len(),
                i <= n,
                self.names_distinct(),
                k@ == key@,
                forall|j: int| 0 <= j < i ==> (#[trigger] self.entries[j]).0@ != key@,
            decreases n - i,
        {
            if self.entries[i].0 == k {
                proof {
                    self.lemma_view_at(i as int);
                }
                return Some(&self.entries[i].1);
            }
            i += 1;
        }
        proof {
            if self@.contains_key(key@) {
                let c = choose|j: int| self.holds_at(j, key@);
                assert(self.entries[c].0@ != key@);
            }
        }
        None
    }

    /// The fields in increasing order of their names, each name once.
    pub fn entries(&self) -> (r: &Vec<(String, String)>)
        ensures
            forall|i: int, j: int|
                0 <= i < j < r.len() ==> name_lt((#[trigger] r[i]).0@, (#[trigger] r[j]).0@),
            forall|i: int|
                0 <= i < r.len() ==> self@.contains_key((#[trigger] r[i]).0@) && self@[r[i].0@]
                    == r[i].1@,
            forall|k: Seq<char>|
                #[trigger] self@.contains_key(k) ==> exists|i: int|
                    0 <= i < r.len() && (#[trigger] r[i]).0@ == k,
    {
        proof {
            use_type_invariant(self);
            self.lemma_sorted_distinct();
            assert forall|i: int| 0 <= i < self.entries.len() implies self@.contains_key(
                (#[trigger] self.entries[i]).0@,
            ) && self@[self.entries[i].0@] == self.entries[i].1@ by {
                self.lemma_view_at(i);
            }
            assert forall|k: Seq<char>| #[trigger] self@.contains_key(k) implies exists|i: int|
                0 <= i < self.entries.len() && (#[trigger] self.entries[i]).0@ == k by {
                let c = choose|j: int| self.holds_at(j, k);
                assert(self.holds_at(c, k));
            }
        }
        &self.entries
    }

    /// Whether the map holds no field.
    pub fn is_empty(&self) -> (b: bool)
        ensures
            b == (self@ == Map::<Seq<char>, Seq<char>>::empty()),
    {
        if self.entries.len() == 0 {
            assert(self@ =~= Map::<Seq<char>, Seq<char>>::empty());
            true
        } else {
            assert(self.holds_at(0, self.entries[0].0@));
            assert(self@.contains_key(self.entries[0].0@));
            false
        }
    }
}

impl View for Fields {
    type V = Map<Seq<char>, Seq<char>>;

    closed spec fn view(&self) -> Map<Seq<char>, Seq<char>> {
        Map::new(
            |k: Seq<char>| exists|i: int| self.holds_at(i, k),
            |k: Seq<char>| self.entries[choose|i: int| self.holds_at(i, k)].1@,
        )
    }
}

/// One line of a log stream.
pub struct Record {
    /// Timestamp, when one could be read from the line.
    pub ts: Option<i64>,
    /// The line as it was read.
    pub raw: String,
    /// Key/value pairs read from the line.
    pub fields: Fields,
    /// Name of the stream the line came from.
    pub source: String,
}

/// The abstract value of a [`Record`].
pub struct RecordView {
    pub ts: Option<i64>,
    pub raw: Seq<char>,
    pub fields: Map<Seq<char>, Seq<char>>,
    pub source: Seq<char>,
}

impl View for Record {
    type V = RecordView;

    open spec fn view(&self) -> RecordView {
        RecordView { ts: self.ts, raw: self.raw@, fields: self.fields@, source: self.source@ }
    }
}

impl Record {
    /// A record of `raw` from `source` with no timestamp and no fields.
    pub fn new(raw: &str, source: &str) -> (r: Record)
        ensures
            r@ == (RecordView {
                ts: None,
                raw: raw@,
                fields: Map::empty(),
                source: source@,
            }),
    {
        Record {
            ts: None,
            raw: String::from_str(raw),
            fields: Fields::new(),
            source: String::from_str(source),
        }
    }
}

} // verus!
