use vstd::prelude::*;

verus! {

/// Whether two byte strings hold the same bytes.
pub(crate) fn same_bytes(a: &Vec<u8>, b: &Vec<u8>) -> (r: bool)
    ensures
        r == (a@ == b@),
{
    if a.len() != b.len() {
        return false;
    }
    let mut i: usize = 0;
    while i < a.len()
        invariant
            a@.len() == b@.len(),
            0 <= i <= a@.len(),
            forall|j: int| 0 <= j < i ==> a@[j] == b@[j],
        decreases a@.len() - i,
    {
        if a[i] != b[i] {
            return false;
        }
        i = i + 1;
    }
    assert(a@ =~= b@);
    true
}

/// A copy of a byte string.
pub(crate) fn copy_bytes(a: &Vec<u8>) -> (r: Vec<u8>)
    ensures
        r@ == a@,
{
    let mut r: Vec<u8> = Vec::new();
    let mut i: usize = 0;
    while i < a.len()
        invariant
            0 <= i <= a@.len(),
            r@ =~= a@.subrange(0, i as int),
        decreases a@.len() - i,
    {
        r.push(a[i]);
        i = i + 1;
    }
    assert(r@ =~= a@);
    r
}

/// An environment variable table held as a value: names and values are byte
/// strings, and each name occurs at most once.
pub struct EnvTable {
    entries: Vec<(Vec<u8>, Vec<u8>)>,
}

/// The map from names to values that a list of distinct-named entries holds.
pub open spec fn entries_map(s: Seq<(Vec<u8>, Vec<u8>)>) -> Map<Seq<u8>, Seq<u8>> {
    Map::new(
        |k: Seq<u8>| exists|i: int| 0 <= i < s.len() && #[trigger] s[i].0@ == k,
        |k: Seq<u8>| s[choose|i: int| 0 <= i < s.len() && #[trigger] s[i].0@ == k].1@,
    )
}

/// No name occurs twice in the list.
pub open spec fn distinct_names(s: Seq<(Vec<u8>, Vec<u8>)>) -> bool {
    forall|i: int, j: int|
        0 <= i < s.len() && 0 <= j < s.len() && i != j ==> #[trigger] s[i].0@ != #[trigger] s[j].0@
}

/// Every entry of a list with distinct names is found in its map.
pub proof fn lemma_entries_map(s: Seq<(Vec<u8>, Vec<u8>)>)
    requires
        distinct_names(s),
    ensures
        forall|k: Seq<u8>|
            #[trigger] entries_map(s).contains_key(k) <==> exists|i: int|
                0 <= i < s.len() && #[trigger] s[i].0@ == k,
        forall|i: int|
            0 <= i < s.len() ==> entries_map(s).contains_key(#[trigger] s[i].0@)
                && entries_map(s)[s[i].0@] == s[i].1@,
{
    assert forall|i: int| 0 <= i < s.len() implies entries_map(s).contains_key(#[trigger] s[i].0@)
        && entries_map(s)[s[i].0@] == s[i].1@ by {
        let k = s[i].0@;
        let j = choose|j: int| 0 <= j < s.len() && #[trigger] s[j].0@ == k;
        assert(s[j].0@ == k);
        assert(j == i);
    }
}

impl View for EnvTable {
    type V = Map<Seq<u8>, Seq<u8>>;

    closed spec fn view(&self) -> Map<Seq<u8>, Seq<u8>> {
        entries_map(self.entries@)
    }
}

impl EnvTable {
    /// The table's names are distinct.
    pub closed spec fn wf(&self) -> bool {
        distinct_names(self.entries@)
    }

    /// An empty table.
    pub fn new() -> (t: EnvTable)
        ensures
            t.wf(),
            t@ == Map::<Seq<u8>, Seq<u8>>::empty(),
    {
        let t = EnvTable { entries: Vec::new() };
        assert(t@ =~= Map::<Seq<u8>, Seq<u8>>::empty());
        t
    }

    /// The number of variables.
    pub fn len(&self) -> (n: usize)
        requires
            self.wf(),
        ensures
            n == self@.dom().len(),
    {
        proof {
            self.lemma_dom_len();
        }
        self.entries.len()
    }

    proof fn lemma_dom_len(&self)
        requires
            self.wf(),
        ensures
            self@.dom().finite(),
            self@.dom().len() == self.entries@.len(),
        decreases self.entries@.len(),
    {
        let s = self.entries@;
        lemma_entries_map(s);
        let names = s.map_values(|e: (Vec<u8>, Vec<u8>)| e.0@);
        assert(self@.dom() =~= names.to_set()) by {
            assert forall|k: Seq<u8>| self@.dom().contains(k) implies names.to_set().contains(k) by {
                let i = choose|i: int| 0 <= i < s.len() && #[trigger] s[i].0@ == k;
                assert(names[i] == k);
            }
            assert forall|k: Seq<u8>| names.to_set().contains(k) implies self@.dom().contains(k) by {
                let i = choose|i: int| 0 <= i < names.len() && names[i] == k;
                assert(s[i].0@ == k);
            }
        }
        assert(names.no_duplicates()) by {
            assert forall|i: int, j: int|
                0 <= i < names.len() && 0 <= j < names.len() && i != j implies names[i]
                != names[j] by {
                assert(s[i].0@ != s[j].0@);
            }
        }
        names.unique_seq_to_set();
    }

    fn find(&self, key: &Vec<u8>) -> (r: Option<usize>)
        ensures
            match r {
                Some(i) => i < self.entries@.len() && self.entries@[i as int].0@ == key@,
                None => forall|i: int|
                    0 <= i < self.entries@.len() ==> #[trigger] self.entries@[i].0@ != key@,
            },
    {
        let mut i: usize = 0;
        while i < self.entries.len()
            invariant
                0 <= i <= self.entries@.len(),
                forall|j: int| 0 <= j < i ==> #[trigger] self.entries@[j].0@ != key@,
            decreases self.entries@.len() - i,
        {
            if same_bytes(&self.entries[i].0, key) {
                return Some(i);
            }
            i = i + 1;
        }
        None
    }

    /// The value of `key`, if the table has it.
    pub fn get(&self, key: &Vec<u8>) -> (r: Option<&Vec<u8>>)
        requires
            self.wf(),
        ensures
            match r {
                Some(v) => self@.contains_key(key@) && v@ == self@[key@],
                None => !self@.contains_key(key@),
            },
    {
        proof {
            lemma_entries_map(self.entries@);
        }
        match self.find(key) {
            Some(i) => Some(&self.entries[i].1),
            None => None,
        }
    }

    /// Gives `key` the value `value`, adding the name if it is new.
    pub fn set(&mut self, key: Vec<u8>, value: Vec<u8>)
        requires
            old(self).wf(),
        ensures
            final(self).wf(),
            final(self)@ == old(self)@.insert(key@, value@),
    {
        let ghost s0 = self.entries@;
        let ghost k = key@;
        let ghost v = value@;
        proof {
            lemma_entries_map(s0);
        }
        match self.find(&key) {
            Some(i) => {
                self.entries.set(i, (key, value));
                let ghost s1 = self.entries@;
                assert(s1 == s0.update(i as int, s1[i as int]));
                assert(distinct_names(s1)) by {
                    assert forall|a: int, b: int|
                        0 <= a < s1.len() && 0 <= b < s1.len() && a != b implies #[trigger] s1[a].0@
                        != #[trigger] s1[b].0@ by {
                        assert(s0[a].0@ != s0[b].0@);
                        if a == i as int {
                            assert(s1[a].0@ == s0[a].0@);
                        }
                        if b == i as int {
                            assert(s1[b].0@ == s0[b].0@);
                        }
                    }
                }
                proof {
                    lemma_entries_map(s1);
                    assert forall|x: Seq<u8>| #[trigger] self@.contains_key(x)
                        <==> entries_map(s0).insert(k, v).contains_key(x) by {
                        if self@.contains_key(x) {
                            let j = choose|j: int| 0 <= j < s1.len() && #[trigger] s1[j].0@ == x;
                            if j != i as int {
                                assert(s0[j].0@ == x);
                            }
                        }
                        if x != k && entries_map(s0).contains_key(x) {
                            let j = choose|j: int| 0 <= j < s0.len() && #[trigger] s0[j].0@ == x;
                            assert(s1[j].0@ == x);
                        }
                        if x == k {
                            assert(s1[i as int].0@ == x);
                        }
                    }
                    assert forall|x: Seq<u8>| #[trigger] self@.contains_key(x) implies self@[x]
                        == entries_map(s0).insert(k, v)[x] by {
                        let j = choose|j: int| 0 <= j < s1.len() && #[trigger] s1[j].0@ == x;
                        if j != i as int {
                            assert(s0[j] == s1[j]);
                        }
                    }
                    assert(self@ =~= entries_map(s0).insert(k, v));
                }
            },
            None => {
                self.entries.push((key, value));
                let ghost s1 = self.entries@;
                assert(s1 == s0.push(s1.last()));
                assert(distinct_names(s1)) by {
                    assert forall|a: int, b: int|
                        0 <= a < s1.len() && 0 <= b < s1.len() && a != b implies #[trigger] s1[a].0@
                        != #[trigger] s1[b].0@ by {
                        if a < s0.len() && b < s0.len() {
                            assert(s0[a].0@ != s0[b].0@);
                        } else if a < s0.len() {
                            assert(s0[a].0@ != k);
                        } else {
                            assert(s0[b].0@ != k);
                        }
                    }
                }
                proof {
                    lemma_entries_map(s1);
                    assert forall|x: Seq<u8>| #[trigger] self@.contains_key(x)
                        <==> entries_map(s0).insert(k, v).contains_key(x) by {
                        if self@.contains_key(x) {
                            let j = choose|j: int| 0 <= j < s1.len() && #[trigger] s1[j].0@ == x;
                            if j < s0.len() {
                                assert(s0[j].0@ == x);
                            } else {
                                assert(s1[j] == (key, value));
                                assert(x == k);
                            }
                        }
                        if x != k && entries_map(s0).contains_key(x) {
                            let j = choose|j: int| 0 <= j < s0.len() && #[trigger] s0[j].0@ == x;
                            assert(s1[j].0@ == x);
                        }
                        if x == k {
                            assert(s1[s0.len() as int] == (key, value));
                            assert(s1[s0.len() as int].0@ == x);
                        }
                    }
                    assert forall|x: Seq<u8>| #[trigger] self@.contains_key(x) implies self@[x]
                        == entries_map(s0).insert(k, v)[x] by {
                        let j = choose|j: int| 0 <= j < s1.len() && #[trigger] s1[j].0@ == x;
                        if j < s0.len() {
                            assert(s0[j] == s1[j]);
                        }
                    }
                    assert(self@ =~= entries_map(s0).insert(k, v));
                }
            },
        }
    }
    /// Takes `key` out of the table; a table without it stays as it is.
    pub fn remove(&mut self, key: &Vec<u8>)
        requires
            old(self).wf(),
        ensures
            final(self).wf(),
            final(self)@ == old(self)@.remove(key@),
    {
        let ghost s0 = self.entries@;
        let ghost k = key@;
        proof {
            lemma_entries_map(s0);
        }
        match self.find(key) {
            Some(i) => {
                self.entries.remove(i);
                let ghost s1 = self.entries@;
                assert(s1 == s0.remove(i as int));
                assert forall|j: int| 0 <= j < s1.len() implies #[trigger] s1[j] == s0[if j < i {
                    j
                } else {
                    j + 1
                }] by {}
                assert(distinct_names(s1)) by {
                    assert forall|a: int, b: int|
                        0 <= a < s1.len() && 0 <= b < s1.len() && a != b implies #[trigger] s1[a].0@
                        != #[trigger] s1[b].0@ by {
                        let a0 = if a < i { a } else { a + 1 };
                        let b0 = if b < i { b } else { b + 1 };
                        assert(s0[a0].0@ != s0[b0].0@);
                    }
                }
                proof {
                    lemma_entries_map(s1);
                    assert forall|x: Seq<u8>| #[trigger] self@.contains_key(x)
                        <==> entries_map(s0).remove(k).contains_key(x) by {
                        if self@.contains_key(x) {
                            let j = choose|j: int| 0 <= j < s1.len() && #[trigger] s1[j].0@ == x;
                            let j0 = if j < i { j } else { j + 1 };
                            assert(s0[j0].0@ == x);
                            assert(j0 != i);
                        }
                        if x != k && entries_map(s0).contains_key(x) {
                            let j = choose|j: int| 0 <= j < s0.len() && #[trigger] s0[j].0@ == x;
                            assert(j != i);
                            let j1 = if j < i { j } else { j - 1 };
                            assert(s1[j1].0@ == x);
                        }
                    }
                    assert forall|x: Seq<u8>| #[trigger] self@.contains_key(x) implies self@[x]
                        == entries_map(s0).remove(k)[x] by {
                        let j = choose|j: int| 0 <= j < s1.len() && #[trigger] s1[j].0@ == x;
                        let j0 = if j < i { j } else { j + 1 };
                        assert(s0[j0] == s1[j]);
                    }
                    assert(self@ =~= entries_map(s0).remove(k));
                }
            },
            None => {
                assert(self@ =~= entries_map(s0).remove(k));
            },
        }
    }

    /// The variables, each once, in no particular order.
    pub fn entries(&self) -> (r: &Vec<(Vec<u8>, Vec<u8>)>)
        requires
            self.wf(),
        ensures
            distinct_names(r@),
            entries_map(r@) == self@,
            forall|i: int|
                0 <= i < r@.len() ==> self@.contains_key(#[trigger] r@[i].0@) && self@[r@[i].0@]
                    == r@[i].1@,
            forall|k: Seq<u8>|
                #[trigger] self@.contains_key(k) ==> exists|i: int|
                    0 <= i < r@.len() && #[trigger] r@[i].0@ == k,
    {
        proof {
            lemma_entries_map(self.entries@);
        }
        &self.entries
    }

    /// Carries out one action on the table.
    pub fn apply(&mut self, action: &EnvAction)
        requires
            old(self).wf(),
        ensures
            final(self).wf(),
            final(self)@ == after_action(old(self)@, *action),
    {
        match action {
            EnvAction::Remove(key) => self.remove(key),
            EnvAction::Assign(key, value) => self.set(copy_bytes(key), copy_bytes(value)),
        }
    }

    /// Carries out the actions on the table, in order.
    pub fn apply_all(&mut self, actions: &Vec<EnvAction>)
        requires
            old(self).wf(),
        ensures
            final(self).wf(),
            final(self)@ == after_actions(old(self)@, actions@),
    {
        let ghost start = self@;
        let mut i: usize = 0;
        while i < actions.len()
            invariant
                self.wf(),
                0 <= i <= actions@.len(),
                self@ == after_actions(start, actions@.subrange(0, i as int)),
            decreases actions@.len() - i,
        {
            self.apply(&actions[i]);
            proof {
                let done = actions@.subrange(0, i as int + 1);
                assert(done.drop_last() =~= actions@.subrange(0, i as int));
            }
            i = i + 1;
        }
        assert(actions@.subrange(0, i as int) =~= actions@);
    }
}

/// A change to one environment variable.
#[derive(Debug, Clone, PartialEq, Eq)]
pub enum EnvAction {
    /// Remove the variable.
    Remove(Vec<u8>),
    /// Give the variable this value.
    Assign(Vec<u8>, Vec<u8>),
}

/// The table after one action.
pub open spec fn after_action(env: Map<Seq<u8>, Seq<u8>>, action: EnvAction) -> Map<
    Seq<u8>,
    Seq<u8>,
> {
    match action {
        EnvAction::Remove(k) => env.remove(k@),
        EnvAction::Assign(k, v) => env.insert(k@, v@),
    }
}

/// The table after the actions, taken in order.
pub open spec fn after_actions(env: Map<Seq<u8>, Seq<u8>>, actions: Seq<EnvAction>) -> Map<
    Seq<u8>,
    Seq<u8>,
>
    decreases actions.len(),
{
    if actions.len() == 0 {
        env
    } else {
        after_action(after_actions(env, actions.drop_last()), actions.last())
    }
}

/// The environment that a restore leaves: a preserved name keeps what it has
/// in `current` (value or absence), every other name is as in `snapshot`.
pub open spec fn restored(
    current: Map<Seq<u8>, Seq<u8>>,
    snapshot: Map<Seq<u8>, Seq<u8>>,
    preserved: Set<Seq<u8>>,
) -> Map<Seq<u8>, Seq<u8>> {
    Map::new(
        |k: Seq<u8>|
            if preserved.contains(k) {
                current.contains_key(k)
            } else {
                snapshot.contains_key(k)
            },
        |k: Seq<u8>|
            if preserved.contains(k) {
                current[k]
            } else {
                snapshot[k]
            },
    )
}


/// A set of variable names.
pub struct KeySet {
    keys: Vec<Vec<u8>>,
}

/// The set of names that a list holds.
pub open spec fn names_of(s: Seq<Vec<u8>>) -> Set<Seq<u8>> {
    Set::new(|k: Seq<u8>| exists|i: int| 0 <= i < s.len() && #[trigger] s[i]@ == k)
}

impl View for KeySet {
    type V = Set<Seq<u8>>;

    closed spec fn view(&self) -> Set<Seq<u8>> {
        names_of(self.keys@)
    }
}

impl KeySet {
    /// The set holds no name twice.
    pub closed spec fn wf(&self) -> bool {
        forall|i: int, j: int|
            0 <= i < self.keys.len() && 0 <= j < self.keys.len() && i != j ==> #[trigger] self.keys@[i]@
                != #[trigger] self.keys@[j]@
    }

    /// An empty set.
    pub fn new() -> (r: KeySet)
        ensures
            r.wf(),
            r@ == Set::<Seq<u8>>::empty(),
    {
        let r = KeySet { keys: Vec::new() };
        assert(r@ =~= Set::<Seq<u8>>::empty());
        r
    }

    fn find(&self, key: &Vec<u8>) -> (r: Option<usize>)
        ensures
            match r {
                Some(i) => i < self.keys@.len() && self.keys@[i as int]@ == key@,
                None => forall|i: int| 0 <= i < self.keys@.len() ==> #[trigger] self.keys@[i]@ != key@,
            },
    {
        let mut i: usize = 0;
        while i < self.keys.len()
            invariant
                0 <= i <= self.keys@.len(),
                forall|j: int| 0 <= j < i ==> #[trigger] self.keys@[j]@ != key@,
            decreases self.keys@.len() - i,
        {
            if same_bytes(&self.keys[i], key) {
                return Some(i);
            }
            i = i + 1;
        }
        None
    }

    /// Whether `key` is in the set.
    pub fn contains(&self, key: &Vec<u8>) -> (r: bool)
        ensures
            r == self@.contains(key@),
    {
        match self.find(key) {
            Some(i) => {
                assert(self.keys@[i as int]@ == key@);
                true
            },
            None => false,
        }
    }

    /// Adds `key`; a name already there stays once.
    pub fn insert(&mut self, key: Vec<u8>)
        requires
            old(self).wf(),
        ensures
            final(self).wf(),
            final(self)@ == old(self)@.insert(key@),
    {
        let ghost s0 = self.keys@;
        let ghost k = key@;
        match self.find(&key) {
            Some(i) => {
                assert(s0[i as int]@ == k);
                assert(self@ =~= names_of(s0).insert(k));
            },
            None => {
                self.keys.push(key);
                let ghost s1 = self.keys@;
                assert(s1 == s0.push(s1.last()));
                assert(s1[s0.len() as int]@ == k);
                assert forall|x: Seq<u8>| #[trigger] names_of(s1).contains(x) implies names_of(
                    s0,
                ).insert(k).contains(x) by {
                    let j = choose|j: int| 0 <= j < s1.len() && #[trigger] s1[j]@ == x;
                    if j < s0.len() {
                        assert(s0[j]@ == x);
                    }
                }
                assert forall|x: Seq<u8>| #[trigger] names_of(s0).contains(x) implies names_of(
                    s1,
                ).contains(x) by {
                    let j = choose|j: int| 0 <= j < s0.len() && #[trigger] s0[j]@ == x;
                    assert(s1[j]@ == x);
                }
                assert(self@ =~= names_of(s0).insert(k));
            },
        }
    }

    /// Takes `key` out; a set without it stays as it is.
    pub fn remove(&mut self, key: &Vec<u8>)
        requires
            old(self).wf(),
        ensures
            final(self).wf(),
            final(self)@ == old(self)@.remove(key@),
    {
        let ghost s0 = self.keys@;
        let ghost k = key@;
        match self.find(key) {
            Some(i) => {
                self.keys.remove(i);
                let ghost s1 = self.keys@;
                assert(s1 == s0.remove(i as int));
                assert forall|x: Seq<u8>| #[trigger] names_of(s1).contains(x) implies names_of(
                    s0,
                ).remove(k).contains(x) by {
                    let j = choose|j: int| 0 <= j < s1.len() && #[trigger] s1[j]@ == x;
                    let j0 = if j < i { j } else { j + 1 };
                    assert(s0[j0]@ == x);
                    assert(j0 != i);
                }
                assert forall|x: Seq<u8>| #[trigger] names_of(s0).remove(k).contains(x) implies names_of(
                    s1,
                ).contains(x) by {
                    let j = choose|j: int| 0 <= j < s0.len() && #[trigger] s0[j]@ == x;
                    assert(j != i);
                    let j1 = if j < i { j } else { j - 1 };
                    assert(s1[j1]@ == x);
                }
                assert(self@ =~= names_of(s0).remove(k));
                assert forall|a: int, b: int|
                    0 <= a < s1.len() && 0 <= b < s1.len() && a != b implies #[trigger] s1[a]@
                    != #[trigger] s1[b]@ by {
                    let a0 = if a < i { a } else { a + 1 };
                    let b0 = if b < i { b } else { b + 1 };
                    assert(s0[a0]@ != s0[b0]@);
                }
            },
            None => {
                assert forall|x: Seq<u8>| #[trigger] names_of(s0).contains(x) implies x != k by {
                    let j = choose|j: int| 0 <= j < s0.len() && #[trigger] s0[j]@ == x;
                }
                assert(self@ =~= names_of(s0).remove(k));
            },
        }
    }

    /// The names, each once, in no particular order.
    pub fn keys(&self) -> (r: &Vec<Vec<u8>>)
        requires
            self.wf(),
        ensures
            names_of(r@) == self@,
            forall|i: int, j: int|
                0 <= i < r@.len() && 0 <= j < r@.len() && i != j ==> #[trigger] r@[i]@
                    != #[trigger] r@[j]@,
    {
        &self.keys
    }
}

} // verus!
