//! Pairing local migrations with database-recorded migrations and
//! classifying each pair into a status.

use vstd::prelude::*;

use crate::errors::Error;
use crate::migration::Migration;

verus! {

/// The classification of one key in the merged history.
#[derive(Clone, Copy, Debug, PartialEq, Eq, Structural)]
pub enum Status {
    /// Present in both sets; hashes match.
    Applied,
    /// Present locally only.
    Unapplied,
    /// Present in both sets; hashes differ.
    Divergent,
    /// Present in the database only.
    Variant,
}

/// One entry of the merged, classified history.
#[derive(Debug, PartialEq)]
pub struct Match {
    pub status: Status,
    pub local: Option<Migration>,
    pub db: Option<Migration>,
}

} // verus!

verus! {

/// The status a pair of hash-pairs classifies to: `Applied` when the
/// up-hashes agree and the down-hashes, where both are present, agree too.
pub open spec fn classify(
    l_up: Option<u64>,
    l_down: Option<u64>,
    d_up: Option<u64>,
    d_down: Option<u64>,
) -> Status {
    if l_up == d_up && ((l_down is Some && d_down is Some) ==> l_down == d_down) {
        Status::Applied
    } else {
        Status::Divergent
    }
}

/// Classification is a pure function of the two hash-pairs present at a key:
/// migrations with the same hashes classify the same, whatever their
/// payloads, names or timestamps.
pub proof fn lemma_classification_pure(l1: Migration, d1: Migration, l2: Migration, d2: Migration)
    requires
        l1.up_hash == l2.up_hash,
        l1.down_hash == l2.down_hash,
        d1.up_hash == d2.up_hash,
        d1.down_hash == d2.down_hash,
    ensures
        match_of_pair(l1, d1).status == match_of_pair(l2, d2).status,
{
}

pub open spec fn match_of_local(m: Migration) -> Match {
    Match { status: Status::Unapplied, local: Some(m), db: None }
}

pub open spec fn match_of_db(m: Migration) -> Match {
    Match { status: Status::Variant, local: None, db: Some(m) }
}

pub open spec fn match_of_pair(l: Migration, d: Migration) -> Match {
    Match {
        status: classify(l.up_hash, l.down_hash, d.up_hash, d.down_hash),
        local: Some(l),
        db: Some(d),
    }
}

impl Match {
    /// A representative migration carrying the entry's key.
    pub open spec fn rep(self) -> Migration {
        match self.local {
            Some(l) => l,
            None => self.db->Some_0,
        }
    }

    /// The shape every entry of a classified history has.
    pub open spec fn wf_shape(self) -> bool {
        match self.status {
            Status::Unapplied => self.local is Some && self.db is None,
            Status::Variant => self.local is None && self.db is Some,
            Status::Applied | Status::Divergent => self.local is Some && self.db is Some
                && (self.local matches Some(l) && self.db matches Some(d) && l.key_eq(d)
                && self.status == classify(l.up_hash, l.down_hash, d.up_hash, d.down_hash)),
        }
    }
}

// ---------------------------------------------------------------------------
// Ordering predicates over migration sequences.
// ---------------------------------------------------------------------------

pub open spec fn sorted_le(s: Seq<Migration>) -> bool {
    forall|i: int, j: int| 0 <= i < j < s.len() ==> s[i].key_le(s[j])
}

pub open spec fn has_key(s: Seq<Migration>, m: Migration) -> bool {
    exists|i: int| 0 <= i < s.len() && s[i].key_eq(m)
}

/// No two entries share a key.
pub open spec fn unique_keys(s: Seq<Migration>) -> bool {
    forall|i: int, j: int| 0 <= i < j < s.len() ==> !s[i].key_eq(s[j])
}

/// Strictly ascending by key.
pub open spec fn sorted_lt(s: Seq<Migration>) -> bool {
    forall|i: int, j: int| 0 <= i < j < s.len() ==> s[i].key_lt(s[j])
}

// ---------------------------------------------------------------------------
// Sorting by key.
// ---------------------------------------------------------------------------

/// Inserts `m` before the first entry whose key is not below `m`'s.
pub open spec fn spec_insert(m: Migration, s: Seq<Migration>) -> Seq<Migration>
    decreases s.len(),
{
    if s.len() == 0 {
        seq![m]
    } else if m.key_le(s[0]) {
        seq![m] + s
    } else {
        seq![s[0]] + spec_insert(m, s.drop_first())
    }
}

/// Insertion sort of a migration sequence.
pub open spec fn sort_by_key(s: Seq<Migration>) -> Seq<Migration>
    decreases s.len(),
{
    if s.len() == 0 {
        Seq::<Migration>::empty()
    } else {
        spec_insert(s[0], sort_by_key(s.drop_first()))
    }
}

pub proof fn lemma_insert_props(m: Migration, s: Seq<Migration>)
    ensures
        spec_insert(m, s).len() == s.len() + 1,
        forall|x: Migration| #[trigger] spec_insert(m, s).contains(x) <==> (s.contains(x) || x
            == m),
        forall|x: Migration| #[trigger] has_key(spec_insert(m, s), x) <==> (has_key(s, x)
            || m.key_eq(x)),
    decreases s.len(),
{
    if s.len() == 0 {
        assert forall|x: Migration| #[trigger] spec_insert(m, s).contains(x) implies (s.contains(
            x,
        ) || x == m) by {
            let i = choose|i: int| 0 <= i < spec_insert(m, s).len() && spec_insert(m, s)[i] == x;
            assert(spec_insert(m, s)[i] == m);
        }
        assert forall|x: Migration| (s.contains(x) || x == m) implies #[trigger] spec_insert(
            m,
            s,
        ).contains(x) by {
            assert(spec_insert(m, s)[0] == m);
        }
        assert forall|x: Migration| #[trigger] has_key(spec_insert(m, s), x) implies (has_key(s, x)
            || m.key_eq(x)) by {
            let i = choose|i: int|
                0 <= i < spec_insert(m, s).len() && spec_insert(m, s)[i].key_eq(x);
            assert(spec_insert(m, s)[i] == m);
        }
        assert forall|x: Migration| (has_key(s, x) || m.key_eq(x)) implies #[trigger] has_key(
            spec_insert(m, s),
            x,
        ) by {
            assert(spec_insert(m, s)[0] == m);
        }
    } else if m.key_le(s[0]) {
        let r = seq![m] + s;
        assert forall|x: Migration| #[trigger] r.contains(x) implies (s.contains(x) || x == m) by {
            let i = choose|i: int| 0 <= i < r.len() && r[i] == x;
            if i > 0 {
                assert(s[i - 1] == x);
            }
        }
        assert forall|x: Migration| (s.contains(x) || x == m) implies #[trigger] r.contains(x) by {
            if x == m {
                assert(r[0] == m);
            } else {
                let i = choose|i: int| 0 <= i < s.len() && s[i] == x;
                assert(r[i + 1] == x);
            }
        }
        assert forall|x: Migration| #[trigger] has_key(r, x) implies (has_key(s, x) || m.key_eq(
            x,
        )) by {
            let i = choose|i: int| 0 <= i < r.len() && r[i].key_eq(x);
            if i > 0 {
                assert(s[i - 1].key_eq(x));
            }
        }
        assert forall|x: Migration| (has_key(s, x) || m.key_eq(x)) implies #[trigger] has_key(
            r,
            x,
        ) by {
            if m.key_eq(x) {
                assert(r[0].key_eq(x));
            } else {
                let i = choose|i: int| 0 <= i < s.len() && s[i].key_eq(x);
                assert(r[i + 1].key_eq(x));
            }
        }
    } else {
        lemma_insert_props(m, s.drop_first());
        let t = s.drop_first();
        let r = seq![s[0]] + spec_insert(m, t);
        assert(spec_insert(m, s) == r);
        assert forall|x: Migration| #[trigger] r.contains(x) implies (s.contains(x) || x == m) by {
            let i = choose|i: int| 0 <= i < r.len() && r[i] == x;
            if i == 0 {
                assert(s[0] == x);
            } else {
                assert(spec_insert(m, t).contains(x));
                if t.contains(x) {
                    let j = choose|j: int| 0 <= j < t.len() && t[j] == x;
                    assert(s[j + 1] == x);
                }
            }
        }
        assert forall|x: Migration| (s.contains(x) || x == m) implies #[trigger] r.contains(x) by {
            if x == m {
                assert(spec_insert(m, t).contains(x));
                let j = choose|j: int| 0 <= j < spec_insert(m, t).len() && spec_insert(m, t)[j]
                    == x;
                assert(r[j + 1] == x);
            } else {
                let i = choose|i: int| 0 <= i < s.len() && s[i] == x;
                if i == 0 {
                    assert(r[0] == x);
                } else {
                    assert(t[i - 1] == x);
                    assert(spec_insert(m, t).contains(x));
                    let j = choose|j: int| 0 <= j < spec_insert(m, t).len() && spec_insert(m, t)[j]
                        == x;
                    assert(r[j + 1] == x);
                }
            }
        }
        assert forall|x: Migration| #[trigger] has_key(r, x) implies (has_key(s, x) || m.key_eq(
            x,
        )) by {
            let i = choose|i: int| 0 <= i < r.len() && r[i].key_eq(x);
            if i == 0 {
                assert(s[0].key_eq(x));
            } else {
                assert(has_key(spec_insert(m, t), x));
                if has_key(t, x) {
                    let j = choose|j: int| 0 <= j < t.len() && t[j].key_eq(x);
                    assert(s[j + 1].key_eq(x));
                }
            }
        }
        assert forall|x: Migration| (has_key(s, x) || m.key_eq(x)) implies #[trigger] has_key(
            r,
            x,
        ) by {
            if m.key_eq(x) {
                assert(has_key(spec_insert(m, t), x));
                let j = choose|j: int|
                    0 <= j < spec_insert(m, t).len() && spec_insert(m, t)[j].key_eq(x);
                assert(r[j + 1].key_eq(x));
            } else {
                let i = choose|i: int| 0 <= i < s.len() && s[i].key_eq(x);
                if i == 0 {
                    assert(r[0].key_eq(x));
                } else {
                    assert(t[i - 1].key_eq(x));
                    assert(has_key(spec_insert(m, t), x));
                    let j = choose|j: int|
                        0 <= j < spec_insert(m, t).len() && spec_insert(m, t)[j].key_eq(x);
                    assert(r[j + 1].key_eq(x));
                }
            }
        }
    }
}

} // verus!

verus! {

pub proof fn lemma_insert_sorted_le(m: Migration, s: Seq<Migration>)
    requires
        sorted_le(s),
    ensures
        sorted_le(spec_insert(m, s)),
    decreases s.len(),
{
    if s.len() == 0 {
    } else if m.key_le(s[0]) {
        let r = seq![m] + s;
        assert forall|i: int, j: int| 0 <= i < j < r.len() implies r[i].key_le(r[j]) by {
            if i == 0 {
                if j > 1 {
                    crate::migration::lemma_key_le_trans(m, s[0], s[j - 1]);
                }
            } else {
                assert(s[i - 1].key_le(s[j - 1]));
            }
        }
    } else {
        let t = s.drop_first();
        assert(sorted_le(t)) by {
            assert forall|i: int, j: int| 0 <= i < j < t.len() implies t[i].key_le(t[j]) by {
                assert(s[i + 1].key_le(s[j + 1]));
            }
        }
        lemma_insert_sorted_le(m, t);
        lemma_insert_props(m, t);
        let r = seq![s[0]] + spec_insert(m, t);
        assert forall|i: int, j: int| 0 <= i < j < r.len() implies r[i].key_le(r[j]) by {
            if i == 0 {
                let x = r[j];
                assert(spec_insert(m, t)[j - 1] == x);
                assert(spec_insert(m, t).contains(x));
                if x == m {
                    crate::migration::lemma_key_trichotomy(m, s[0]);
                    assert(s[0].key_le(m));
                } else {
                    assert(t.contains(x));
                    let k = choose|k: int| 0 <= k < t.len() && t[k] == x;
                    assert(s[0].key_le(s[k + 1]));
                }
            } else {
                assert(spec_insert(m, t)[i - 1].key_le(spec_insert(m, t)[j - 1]));
            }
        }
    }
}

pub proof fn lemma_insert_unique(m: Migration, s: Seq<Migration>)
    ensures
        unique_keys(spec_insert(m, s)) <==> (unique_keys(s) && !has_key(s, m)),
    decreases s.len(),
{
    lemma_insert_props(m, s);
    if s.len() == 0 {
    } else if m.key_le(s[0]) {
        let r = seq![m] + s;
        if unique_keys(s) && !has_key(s, m) {
            assert forall|i: int, j: int| 0 <= i < j < r.len() implies !r[i].key_eq(r[j]) by {
                if i == 0 {
                    if r[0].key_eq(r[j]) {
                        assert(s[j - 1].key_eq(m));
                    }
                } else {
                    assert(!s[i - 1].key_eq(s[j - 1]));
                }
            }
        }
        if unique_keys(r) {
            assert forall|i: int, j: int| 0 <= i < j < s.len() implies !s[i].key_eq(s[j]) by {
                assert(!r[i + 1].key_eq(r[j + 1]));
            }
            assert(!has_key(s, m)) by {
                if has_key(s, m) {
                    let k = choose|k: int| 0 <= k < s.len() && s[k].key_eq(m);
                    assert(r[k + 1].key_eq(m));
                    assert(r[0].key_eq(r[k + 1]));
                }
            }
        }
    } else {
        let t = s.drop_first();
        lemma_insert_unique(m, t);
        lemma_insert_props(m, t);
        let w = spec_insert(m, t);
        let r = seq![s[0]] + w;
        assert(spec_insert(m, s) == r);
        // decompose uniqueness of a cons cell
        assert(unique_keys(s) <==> (unique_keys(t) && !has_key(t, s[0]))) by {
            lemma_unique_cons(s);
        }
        assert(unique_keys(r) <==> (unique_keys(w) && !has_key(w, s[0]))) by {
            lemma_unique_cons(r);
            assert(r.drop_first() =~= w);
            assert(r[0] == s[0]);
        }
        // !has_key(w, s[0]) <==> !has_key(t, s[0]) && !m.key_eq(s[0]); the
        // second conjunct holds since s[0].key_lt(m)
        crate::migration::lemma_key_trichotomy(m, s[0]);
        crate::migration::lemma_key_trichotomy(s[0], m);
        assert(has_key(s, m) <==> (has_key(t, m) || s[0].key_eq(m))) by {
            lemma_has_key_cons(s, m);
        }
    }
}

/// Uniqueness of a non-empty sequence splits into the tail and the head key.
pub proof fn lemma_unique_cons(s: Seq<Migration>)
    requires
        s.len() > 0,
    ensures
        unique_keys(s) <==> (unique_keys(s.drop_first()) && !has_key(s.drop_first(), s[0])),
{
    let t = s.drop_first();
    if unique_keys(s) {
        assert forall|i: int, j: int| 0 <= i < j < t.len() implies !t[i].key_eq(t[j]) by {
            assert(!s[i + 1].key_eq(s[j + 1]));
        }
        if has_key(t, s[0]) {
            let k = choose|k: int| 0 <= k < t.len() && t[k].key_eq(s[0]);
            assert(!s[0].key_eq(s[k + 1]));
        }
    }
    if unique_keys(t) && !has_key(t, s[0]) {
        assert forall|i: int, j: int| 0 <= i < j < s.len() implies !s[i].key_eq(s[j]) by {
            if i == 0 {
                if s[0].key_eq(s[j]) {
                    assert(t[j - 1].key_eq(s[0]));
                }
            } else {
                assert(!t[i - 1].key_eq(t[j - 1]));
            }
        }
    }
}

pub proof fn lemma_has_key_cons(s: Seq<Migration>, m: Migration)
    requires
        s.len() > 0,
    ensures
        has_key(s, m) <==> (has_key(s.drop_first(), m) || s[0].key_eq(m)),
{
    let t = s.drop_first();
    if has_key(s, m) {
        let i = choose|i: int| 0 <= i < s.len() && s[i].key_eq(m);
        if i > 0 {
            assert(t[i - 1].key_eq(m));
        }
    }
    if has_key(t, m) {
        let i = choose|i: int| 0 <= i < t.len() && t[i].key_eq(m);
        assert(s[i + 1].key_eq(m));
    }
}

/// What sorting guarantees: same length, same members, same keys, sortedness,
/// and key-uniqueness preserved in both directions.
pub proof fn lemma_sort_props(s: Seq<Migration>)
    ensures
        sort_by_key(s).len() == s.len(),
        sorted_le(sort_by_key(s)),
        forall|x: Migration| #[trigger] sort_by_key(s).contains(x) <==> s.contains(x),
        forall|x: Migration| #[trigger] has_key(sort_by_key(s), x) <==> has_key(s, x),
        unique_keys(sort_by_key(s)) <==> unique_keys(s),
    decreases s.len(),
{
    if s.len() == 0 {
    } else {
        let t = s.drop_first();
        lemma_sort_props(t);
        lemma_insert_props(s[0], sort_by_key(t));
        lemma_insert_sorted_le(s[0], sort_by_key(t));
        lemma_insert_unique(s[0], sort_by_key(t));
        lemma_unique_cons(s);
        lemma_has_key_cons(s, s[0]);
        assert forall|x: Migration| #[trigger] sort_by_key(s).contains(x) <==> s.contains(x) by {
            if t.contains(x) {
                let i = choose|i: int| 0 <= i < t.len() && t[i] == x;
                assert(s[i + 1] == x);
            }
            if s.contains(x) && x != s[0] {
                let i = choose|i: int| 0 <= i < s.len() && s[i] == x;
                assert(i > 0);
                assert(t[i - 1] == x);
            }
            assert(s[0] == s[0]);
            assert(s.contains(s[0]));
        }
        assert forall|x: Migration| #[trigger] has_key(sort_by_key(s), x) <==> has_key(s, x) by {
            lemma_has_key_cons(s, x);
        }
    }
}

} // verus!

verus! {

/// Inserts a migration into a key-sorted vector, keeping it sorted.
fn insert_sorted(v: Vec<Migration>, m: Migration) -> (r: Vec<Migration>)
    ensures
        r@ == spec_insert(m, v@),
{
    let mut v = v;
    let ghost s0: Seq<Migration> = v@;
    let mut i: usize = 0;
    while i < v.len() && v[i].key_cmp(&m) == -1
        invariant
            0 <= i <= v@.len(),
            v@ == s0,
            forall|j: int| 0 <= j < i ==> s0[j].key_lt(m),
        decreases v@.len() - i,
    {
        i = i + 1;
    }
    proof {
        if i < s0.len() {
            crate::migration::lemma_key_trichotomy(m, s0[i as int]);
        }
        lemma_insert_point(m, s0, i as int);
    }
    v.insert(i, m);
    v
}

/// Where the first `i` entries are strictly below `m` and entry `i`, if any,
/// is not, inserting `m` lands at position `i`.
proof fn lemma_insert_point(m: Migration, s: Seq<Migration>, i: int)
    requires
        0 <= i <= s.len(),
        forall|j: int| 0 <= j < i ==> s[j].key_lt(m),
        i < s.len() ==> m.key_le(s[i]),
    ensures
        spec_insert(m, s) == s.insert(i, m),
    decreases s.len(),
{
    crate::migration::lemma_key_trichotomy(m, s[0]);
    if s.len() == 0 {
        assert(spec_insert(m, s) =~= s.insert(0, m));
    } else if i == 0 {
        assert(spec_insert(m, s) =~= s.insert(0, m));
    } else {
        assert(s[0].key_lt(m));
        assert(!m.key_le(s[0])) by {
            crate::migration::lemma_key_trichotomy(m, s[0]);
        }
        let t = s.drop_first();
        lemma_insert_point(m, t, i - 1);
        assert(spec_insert(m, s) == seq![s[0]] + spec_insert(m, t));
        assert(seq![s[0]] + t.insert(i - 1, m) =~= s.insert(i, m));
    }
}

/// Sorts migrations ascending by key.
pub fn sort_migrations(v: Vec<Migration>) -> (r: Vec<Migration>)
    ensures
        r@ == sort_by_key(v@),
{
    let mut v = v;
    let ghost s0: Seq<Migration> = v@;
    let mut out: Vec<Migration> = Vec::new();
    proof {
        assert(s0.skip(s0.len() as int) =~= Seq::<Migration>::empty());
        assert(v@ =~= s0.take(s0.len() as int));
    }
    while v.len() > 0
        invariant
            v@.len() <= s0.len(),
            v@ == s0.take(v@.len() as int),
            out@ == sort_by_key(s0.skip(v@.len() as int)),
        decreases v@.len(),
    {
        let ghost i: int = v@.len() as int;
        let m = match v.pop() {
            Some(m) => m,
            None => vstd::pervasive::unreached(),
        };
        proof {
            assert(m == s0.take(i)[i - 1]);
            assert(s0.take(i)[i - 1] == s0[i - 1]);
            assert(s0.take(i).drop_last() =~= s0.take(i - 1));
            assert(s0.skip(i - 1)[0] == s0[i - 1]);
            assert(s0.skip(i - 1).drop_first() =~= s0.skip(i));
        }
        out = insert_sorted(out, m);
        proof {
            assert(out@ == spec_insert(s0[i - 1], sort_by_key(s0.skip(i))));
            assert(sort_by_key(s0.skip(i - 1)) == spec_insert(s0[i - 1], sort_by_key(s0.skip(i))));
        }
    }
    proof {
        assert(s0.skip(0) =~= s0);
    }
    out
}

/// On a key-sorted vector, decides whether all keys are distinct.
fn check_unique(v: &Vec<Migration>) -> (r: bool)
    requires
        sorted_le(v@),
    ensures
        r == unique_keys(v@),
{
    let n: usize = v.len();
    let mut i: usize = 1;
    while i < n
        invariant
            1 <= i,
            n == v@.len(),
            sorted_le(v@),
            forall|j: int| 0 <= j < i - 1 ==> !(#[trigger] v@[j]).key_eq(v@[j + 1]),
        decreases n - i,
    {
        if v[i - 1].key_cmp(&v[i]) == 0 {
            proof {
                assert(v@[i - 1].key_eq(v@[i as int]));
            }
            return false;
        }
        i = i + 1;
    }
    proof {
        lemma_sorted_adjacent_unique(v@);
    }
    true
}

/// In a sorted sequence, distinct adjacent keys mean all keys are distinct.
proof fn lemma_sorted_adjacent_unique(s: Seq<Migration>)
    requires
        sorted_le(s),
        forall|j: int| 0 <= j < s.len() - 1 ==> !(#[trigger] s[j]).key_eq(s[j + 1]),
    ensures
        unique_keys(s),
{
    assert forall|i: int, j: int| 0 <= i < j < s.len() implies !s[i].key_eq(s[j]) by {
        if s[i].key_eq(s[j]) {
            // keys at i and i + 1 would have to agree as well
            assert(s[i].key_le(s[i + 1]));
            if i + 1 < j {
                assert(s[i + 1].key_le(s[j]));
            }
            crate::migration::lemma_key_trichotomy(s[i], s[i + 1]);
            crate::migration::lemma_key_trichotomy(s[i + 1], s[j]);
            crate::migration::lemma_key_trichotomy(s[i], s[j]);
            if s[i].key_lt(s[i + 1]) {
                if s[i + 1].key_lt(s[j]) {
                    crate::migration::lemma_key_lt_trans(s[i], s[i + 1], s[j]);
                } else {
                    // s[i+1].key_eq(s[j]), so s[i].key_lt(s[j])
                    assert(s[i + 1].key_eq(s[j]) || i + 1 == j);
                }
            }
        }
    }
}

} // verus!

verus! {

/// Entries ascend strictly by key.
pub open spec fn matches_sorted(ms: Seq<Match>) -> bool {
    forall|i: int, j: int|
        0 <= i < j < ms.len() ==> (#[trigger] ms[i]).rep().key_lt((#[trigger] ms[j]).rep())
}

pub open spec fn matches_wf(ms: Seq<Match>) -> bool {
    forall|i: int| 0 <= i < ms.len() ==> (#[trigger] ms[i]).wf_shape()
}

/// The merge of two key-sorted sets: equal keys pair up and classify, a key
/// present on one side only becomes `Unapplied` (local) or `Variant` (db).
pub open spec fn merge_spec(a: Seq<Migration>, b: Seq<Migration>) -> Seq<Match>
    decreases a.len() + b.len(),
{
    if a.len() == 0 && b.len() == 0 {
        Seq::<Match>::empty()
    } else if a.len() == 0 {
        seq![match_of_db(b[0])] + merge_spec(a, b.drop_first())
    } else if b.len() == 0 {
        seq![match_of_local(a[0])] + merge_spec(a.drop_first(), b)
    } else if a[0].key_lt(b[0]) {
        seq![match_of_local(a[0])] + merge_spec(a.drop_first(), b)
    } else if b[0].key_lt(a[0]) {
        seq![match_of_db(b[0])] + merge_spec(a, b.drop_first())
    } else {
        seq![match_of_pair(a[0], b[0])] + merge_spec(a.drop_first(), b.drop_first())
    }
}

/// What the merge guarantees: every entry is well-shaped, the entries ascend
/// strictly by key, every entry's key is at or above both heads, and the
/// local (resp. db) payloads of the entries are exactly the members of `a`
/// (resp. `b`).
pub proof fn lemma_merge_props(a: Seq<Migration>, b: Seq<Migration>)
    requires
        sorted_lt(a),
        sorted_lt(b),
    ensures
        matches_wf(merge_spec(a, b)),
        matches_sorted(merge_spec(a, b)),
        forall|j: int| 0 <= j < merge_spec(a, b).len() ==> ((a.len() > 0 && a[0].key_le(
            (#[trigger] merge_spec(a, b)[j]).rep(),
        )) || (b.len() > 0 && b[0].key_le(merge_spec(a, b)[j].rep()))),
        forall|x: Migration| #[trigger] a.contains(x) <==> (exists|j: int|
            0 <= j < merge_spec(a, b).len() && (#[trigger] merge_spec(a, b)[j]).local == Some(x)),
        forall|x: Migration| #[trigger] b.contains(x) <==> (exists|j: int|
            0 <= j < merge_spec(a, b).len() && (#[trigger] merge_spec(a, b)[j]).db == Some(x)),
    decreases a.len() + b.len(),
{
    let ms = merge_spec(a, b);
    if a.len() == 0 && b.len() == 0 {
        assert forall|x: Migration| #[trigger] a.contains(x) implies (exists|j: int|
            0 <= j < ms.len() && (#[trigger] ms[j]).local == Some(x)) by {}
    } else {
        let take_a = b.len() == 0 || (a.len() > 0 && a[0].key_lt(b[0]));
        let take_b = a.len() == 0 || (b.len() > 0 && b[0].key_lt(a[0]));
        let a2 = if take_b {
            a
        } else {
            a.drop_first()
        };
        let b2 = if take_a {
            b
        } else {
            b.drop_first()
        };
        let head = if take_a {
            match_of_local(a[0])
        } else if take_b {
            match_of_db(b[0])
        } else {
            match_of_pair(a[0], b[0])
        };
        if a.len() > 0 && b.len() > 0 {
            crate::migration::lemma_key_trichotomy(a[0], b[0]);
        }
        assert(ms == seq![head] + merge_spec(a2, b2));
        proof_sorted_drop(a);
        proof_sorted_drop(b);
        if !take_a && !take_b {
            assert(a[0].key_eq(b[0]));
        }
        lemma_merge_props(a2, b2);
        let rest = merge_spec(a2, b2);
        // the head is strictly below every entry of the rest
        assert forall|j: int| 0 <= j < rest.len() implies head.rep().key_lt(
            (#[trigger] rest[j]).rep(),
        ) by {
            let r = rest[j].rep();
            // the entry is at or above one of the heads of the two tails
            assert((a2.len() > 0 && a2[0].key_le(r)) || (b2.len() > 0 && b2[0].key_le(r)));
            if take_a {
                if a2.len() > 0 && a2[0].key_le(r) {
                    assert(a2[0] == a[1]);
                    assert(a[0].key_lt(a[1]));
                    lemma_lt_le_trans(a[0], a2[0], r);
                } else {
                    // then b is non-empty and a[0] is strictly below b[0]
                    lemma_lt_le_trans(a[0], b[0], r);
                }
            } else if take_b {
                if b2.len() > 0 && b2[0].key_le(r) {
                    assert(b2[0] == b[1]);
                    assert(b[0].key_lt(b[1]));
                    lemma_lt_le_trans(b[0], b2[0], r);
                } else {
                    lemma_lt_le_trans(b[0], a[0], r);
                }
            } else {
                if a2.len() > 0 && a2[0].key_le(r) {
                    assert(a2[0] == a[1]);
                    assert(a[0].key_lt(a[1]));
                    lemma_lt_le_trans(a[0], a2[0], r);
                } else {
                    assert(b2[0] == b[1]);
                    assert(b[0].key_lt(b[1]));
                    lemma_lt_le_trans(b[0], b2[0], r);
                    lemma_eq_lt_lt(a[0], b[0], r);
                }
            }
        }
        assert forall|i: int, j: int| 0 <= i < j < ms.len() implies (#[trigger] ms[i]).rep().key_lt(
            (#[trigger] ms[j]).rep(),
        ) by {
            if i > 0 {
                assert(rest[i - 1].rep().key_lt(rest[j - 1].rep()));
            } else {
                assert(ms[j] == rest[j - 1]);
            }
        }
        assert forall|j: int| 0 <= j < ms.len() implies (#[trigger] ms[j]).wf_shape() by {
            if j > 0 {
                assert(rest[j - 1].wf_shape());
            }
        }
        assert forall|j: int| 0 <= j < ms.len() implies ((a.len() > 0 && a[0].key_le(
            (#[trigger] ms[j]).rep(),
        )) || (b.len() > 0 && b[0].key_le(ms[j].rep()))) by {
            if j == 0 {
                if !take_a && !take_b {
                    assert(head.rep() == a[0]);
                }
            } else {
                assert(ms[j] == rest[j - 1]);
                assert(head.rep().key_lt(rest[j - 1].rep()));
            }
        }
        // local coverage
        assert forall|x: Migration| #[trigger] a.contains(x) implies (exists|j: int|
            0 <= j < ms.len() && (#[trigger] ms[j]).local == Some(x)) by {
            let i = choose|i: int| 0 <= i < a.len() && a[i] == x;
            if !take_b && i == 0 {
                assert(ms[0].local == Some(x));
            } else {
                if take_b {
                    assert(a2.contains(x)) by {
                        assert(a2[i] == x);
                    }
                } else {
                    assert(a2.contains(x)) by {
                        assert(a2[i - 1] == x);
                    }
                }
                let j = choose|j: int| 0 <= j < rest.len() && (#[trigger] rest[j]).local == Some(
                    x,
                );
                assert(ms[j + 1].local == Some(x));
            }
        }
        assert forall|x: Migration|
            (exists|j: int| 0 <= j < ms.len() && (#[trigger] ms[j]).local == Some(x)) implies (
        #[trigger] a.contains(x)) by {
            let j = choose|j: int| 0 <= j < ms.len() && (#[trigger] ms[j]).local == Some(x);
            if j == 0 {
                if !take_b {
                    assert(a[0] == x);
                }
            } else {
                assert(rest[j - 1].local == Some(x));
                assert(a2.contains(x));
                let i = choose|i: int| 0 <= i < a2.len() && a2[i] == x;
                if take_b {
                    assert(a[i] == x);
                } else {
                    assert(a[i + 1] == x);
                }
            }
        }
        // db coverage
        assert forall|x: Migration| #[trigger] b.contains(x) implies (exists|j: int|
            0 <= j < ms.len() && (#[trigger] ms[j]).db == Some(x)) by {
            let i = choose|i: int| 0 <= i < b.len() && b[i] == x;
            if !take_a && i == 0 {
                assert(ms[0].db == Some(x));
            } else {
                if take_a {
                    assert(b2.contains(x)) by {
                        assert(b2[i] == x);
                    }
                } else {
                    assert(b2.contains(x)) by {
                        assert(b2[i - 1] == x);
                    }
                }
                let j = choose|j: int| 0 <= j < rest.len() && (#[trigger] rest[j]).db == Some(x);
                assert(ms[j + 1].db == Some(x));
            }
        }
        assert forall|x: Migration|
            (exists|j: int| 0 <= j < ms.len() && (#[trigger] ms[j]).db == Some(x)) implies (
        #[trigger] b.contains(x)) by {
            let j = choose|j: int| 0 <= j < ms.len() && (#[trigger] ms[j]).db == Some(x);
            if j == 0 {
                if !take_a {
                    assert(b[0] == x);
                }
            } else {
                assert(rest[j - 1].db == Some(x));
                assert(b2.contains(x));
                let i = choose|i: int| 0 <= i < b2.len() && b2[i] == x;
                if take_a {
                    assert(b[i] == x);
                } else {
                    assert(b[i + 1] == x);
                }
            }
        }
    }
}

proof fn proof_sorted_drop(a: Seq<Migration>)
    requires
        sorted_lt(a),
    ensures
        a.len() > 0 ==> sorted_lt(a.drop_first()),
{
    if a.len() > 0 {
        let t = a.drop_first();
        assert forall|i: int, j: int| 0 <= i < j < t.len() implies t[i].key_lt(t[j]) by {
            assert(a[i + 1].key_lt(a[j + 1]));
        }
    }
}

proof fn lemma_lt_le_trans(a: Migration, b: Migration, c: Migration)
    requires
        a.key_lt(b),
        b.key_le(c),
    ensures
        a.key_lt(c),
{
    if b.key_lt(c) {
        crate::migration::lemma_key_lt_trans(a, b, c);
    }
}

proof fn lemma_eq_lt_lt(a: Migration, b: Migration, c: Migration)
    requires
        a.key_eq(b),
        b.key_lt(c),
    ensures
        a.key_lt(c),
{
}

} // verus!

verus! {

/// `merge_spec` over an empty database set: everything is unapplied, in order.
pub proof fn lemma_merge_empty_db(a: Seq<Migration>)
    ensures
        merge_spec(a, Seq::<Migration>::empty()).len() == a.len(),
        forall|i: int| 0 <= i < a.len() ==> merge_spec(a, Seq::<Migration>::empty())[i]
            == match_of_local(a[i]),
    decreases a.len(),
{
    let b = Seq::<Migration>::empty();
    if a.len() > 0 {
        lemma_merge_empty_db(a.drop_first());
        assert(merge_spec(a, b) == seq![match_of_local(a[0])] + merge_spec(a.drop_first(), b));
        assert forall|i: int| 0 <= i < a.len() implies merge_spec(a, b)[i] == match_of_local(
            a[i],
        ) by {
            if i > 0 {
                assert(merge_spec(a, b)[i] == merge_spec(a.drop_first(), b)[i - 1]);
                assert(a.drop_first()[i - 1] == a[i]);
            }
        }
    }
}

/// A sorted sequence with pairwise-distinct keys ascends strictly.
pub proof fn lemma_sorted_unique_strict(s: Seq<Migration>)
    requires
        sorted_le(s),
        unique_keys(s),
    ensures
        sorted_lt(s),
{
    assert forall|i: int, j: int| 0 <= i < j < s.len() implies s[i].key_lt(s[j]) by {
        assert(s[i].key_le(s[j]));
        assert(!s[i].key_eq(s[j]));
        crate::migration::lemma_key_trichotomy(s[i], s[j]);
    }
}

fn opt_u64_eq(x: &Option<u64>, y: &Option<u64>) -> (r: bool)
    ensures
        r == (*x == *y),
{
    match (x, y) {
        (Some(p), Some(q)) => *p == *q,
        (None, None) => true,
        _ => false,
    }
}

/// Builds the classified entry for a key present on both sides.
fn make_pair(l: Migration, d: Migration) -> (r: Match)
    ensures
        r == match_of_pair(l, d),
{
    let up_eq = opt_u64_eq(&l.up_hash, &d.up_hash);
    let down_eq = match (&l.down_hash, &d.down_hash) {
        (Some(p), Some(q)) => *p == *q,
        _ => true,
    };
    let status = if up_eq && down_eq {
        Status::Applied
    } else {
        Status::Divergent
    };
    Match { status, local: Some(l), db: Some(d) }
}

/// Merges two key-sorted vectors into the classified history.
fn merge_sorted(a: Vec<Migration>, b: Vec<Migration>) -> (r: Vec<Match>)
    ensures
        r@ == merge_spec(a@, b@),
{
    let mut a = a;
    let mut b = b;
    let ghost a0: Seq<Migration> = a@;
    let ghost b0: Seq<Migration> = b@;
    let mut out: Vec<Match> = Vec::new();
    while a.len() > 0 || b.len() > 0
        invariant
            merge_spec(a0, b0) == out@ + merge_spec(a@, b@),
        decreases a@.len() + b@.len(),
    {
        proof {
            if a@.len() > 0 && b@.len() > 0 {
                crate::migration::lemma_key_trichotomy(a@[0], b@[0]);
            }
        }
        let ghost a_pre: Seq<Migration> = a@;
        let ghost b_pre: Seq<Migration> = b@;
        let take: i8 = if a.len() == 0 {
            1
        } else if b.len() == 0 {
            -1
        } else {
            a[0].key_cmp(&b[0])
        };
        let entry: Match = if take == -1 {
            let m = a.remove(0);
            Match { status: Status::Unapplied, local: Some(m), db: None }
        } else if take == 1 {
            let m = b.remove(0);
            Match { status: Status::Variant, local: None, db: Some(m) }
        } else {
            let l = a.remove(0);
            let d = b.remove(0);
            make_pair(l, d)
        };
        proof {
            if take == -1 {
                assert(a@ =~= a_pre.drop_first());
                assert(entry == match_of_local(a_pre[0]));
                assert(merge_spec(a_pre, b_pre) == seq![entry] + merge_spec(a@, b@));
            } else if take == 1 {
                assert(b@ =~= b_pre.drop_first());
                assert(entry == match_of_db(b_pre[0]));
                assert(merge_spec(a_pre, b_pre) == seq![entry] + merge_spec(a@, b@));
            } else {
                assert(a@ =~= a_pre.drop_first());
                assert(b@ =~= b_pre.drop_first());
                assert(entry == match_of_pair(a_pre[0], b_pre[0]));
                assert(merge_spec(a_pre, b_pre) == seq![entry] + merge_spec(a@, b@));
            }
        }
        out.push(entry);
        proof {
            assert(out@ + merge_spec(a@, b@) =~= merge_spec(a0, b0));
        }
    }
    proof {
        assert(out@ + merge_spec(a@, b@) =~= out@);
    }
    out
}

/// Pairs the local set with the database set into a classified history,
/// ascending by key.
///
/// Fails with `BadMigration` exactly when either input repeats a key; on
/// success every input migration appears in exactly one entry, every entry
/// comes from the inputs, entries ascend strictly by key, and each entry is
/// classified from the hashes at its key.
pub fn matchmake(local_migrations: Vec<Migration>, db_migrations: Vec<Migration>) -> (r: Result<
    Vec<Match>,
    Error,
>)
    ensures
        r is Ok <==> (unique_keys(local_migrations@) && unique_keys(db_migrations@)),
        r is Err ==> r matches Err(Error::BadMigration),
        r matches Ok(ms) ==> ms@ == merge_spec(
            sort_by_key(local_migrations@),
            sort_by_key(db_migrations@),
        ),
        r matches Ok(ms) ==> matches_wf(ms@) && matches_sorted(ms@),
        r matches Ok(ms) ==> (forall|x: Migration| #[trigger] local_migrations@.contains(x) <==> (
        exists|j: int| 0 <= j < ms@.len() && (#[trigger] ms@[j]).local == Some(x))),
        r matches Ok(ms) ==> (forall|x: Migration| #[trigger] db_migrations@.contains(x) <==> (
        exists|j: int| 0 <= j < ms@.len() && (#[trigger] ms@[j]).db == Some(x))),
        r matches Ok(ms) ==> (forall|j1: int, j2: int|
            0 <= j1 < ms@.len() && 0 <= j2 < ms@.len() && (#[trigger] ms@[j1]).local is Some
                && ms@[j1].local == (#[trigger] ms@[j2]).local ==> j1 == j2),
        r matches Ok(ms) ==> (forall|j1: int, j2: int|
            0 <= j1 < ms@.len() && 0 <= j2 < ms@.len() && (#[trigger] ms@[j1]).db is Some
                && ms@[j1].db == (#[trigger] ms@[j2]).db ==> j1 == j2),
        r matches Ok(ms) ==> db_migrations@.len() == 0 ==> (ms@.len() == local_migrations@.len()
            && (forall|i: int| 0 <= i < ms@.len() ==> ms@[i] == match_of_local(
            sort_by_key(local_migrations@)[i],
        ))),
{
    let ghost l0: Seq<Migration> = local_migrations@;
    let ghost d0: Seq<Migration> = db_migrations@;
    let sl = sort_migrations(local_migrations);
    let sd = sort_migrations(db_migrations);
    proof {
        lemma_sort_props(l0);
        lemma_sort_props(d0);
    }
    if !check_unique(&sl) || !check_unique(&sd) {
        return Err(Error::BadMigration);
    }
    proof {
        lemma_sorted_unique_strict(sl@);
        lemma_sorted_unique_strict(sd@);
        lemma_merge_props(sl@, sd@);
        if d0.len() == 0 {
            assert(sd@ =~= Seq::<Migration>::empty());
            lemma_merge_empty_db(sl@);
        }
        let msg = merge_spec(sl@, sd@);
        assert forall|j1: int, j2: int|
            0 <= j1 < msg.len() && 0 <= j2 < msg.len() && ((#[trigger] msg[j1]).local is Some
                && msg[j1].local == (#[trigger] msg[j2]).local || msg[j1].db is Some && msg[j1].db
                == msg[j2].db) implies j1 == j2 by {
            if j1 != j2 {
                assert(msg[j1].rep().key_eq(msg[j2].rep())) by {
                    assert(msg[j1].wf_shape());
                    assert(msg[j2].wf_shape());
                }
                if j1 < j2 {
                    assert(msg[j1].rep().key_lt(msg[j2].rep()));
                } else {
                    assert(msg[j2].rep().key_lt(msg[j1].rep()));
                }
                crate::migration::lemma_key_trichotomy(msg[j1].rep(), msg[j2].rep());
            }
        }
        assert forall|x: Migration| #[trigger] l0.contains(x) <==> (exists|j: int|
            0 <= j < msg.len() && (#[trigger] msg[j]).local == Some(x)) by {
            assert(sort_by_key(l0).contains(x) <==> l0.contains(x));
        }
        assert forall|x: Migration| #[trigger] d0.contains(x) <==> (exists|j: int|
            0 <= j < msg.len() && (#[trigger] msg[j]).db == Some(x)) by {
            assert(sort_by_key(d0).contains(x) <==> d0.contains(x));
        }
    }
    Ok(merge_sorted(sl, sd))
}

} // verus!

verus! {

/// An unapplied entry of the merge is a local migration whose key has no row
/// on the database side.
pub proof fn lemma_merge_unapplied_absent(a: Seq<Migration>, b: Seq<Migration>)
    requires
        sorted_lt(a),
        sorted_lt(b),
    ensures
        forall|j: int|
            0 <= j < merge_spec(a, b).len() && (#[trigger] merge_spec(a, b)[j]).status
                is Unapplied ==> (merge_spec(a, b)[j].local is Some && !has_key(
                b,
                merge_spec(a, b)[j].local->Some_0,
            )),
    decreases a.len() + b.len(),
{
    let ms = merge_spec(a, b);
    if a.len() == 0 && b.len() == 0 {
    } else {
        if a.len() > 0 && b.len() > 0 {
            crate::migration::lemma_key_trichotomy(a[0], b[0]);
        }
        let take_a = b.len() == 0 || (a.len() > 0 && a[0].key_lt(b[0]));
        let take_b = a.len() == 0 || (b.len() > 0 && b[0].key_lt(a[0]));
        let a2 = if take_b {
            a
        } else {
            a.drop_first()
        };
        let b2 = if take_a {
            b
        } else {
            b.drop_first()
        };
        proof_sorted_drop(a);
        proof_sorted_drop(b);
        lemma_merge_unapplied_absent(a2, b2);
        lemma_merge_props(a2, b2);
        let rest = merge_spec(a2, b2);
        // every local of the tail merge sits at or above the head of `a`
        assert forall|j: int|
            0 <= j < ms.len() && (#[trigger] ms[j]).status is Unapplied implies (ms[j].local
                is Some && !has_key(b, ms[j].local->Some_0)) by {
            if j == 0 {
                if take_a {
                    // the head is below every database key
                    assert(ms[0].local == Some(a[0]));
                    if has_key(b, a[0]) {
                        let k = choose|k: int| 0 <= k < b.len() && (#[trigger] b[k]).key_eq(a[0]);
                        crate::migration::lemma_key_trichotomy(a[0], b[k]);
                        if k > 0 {
                            crate::migration::lemma_key_lt_trans(a[0], b[0], b[k]);
                        }
                    }
                }
            } else {
                assert(ms[j] == rest[j - 1]);
                assert(rest[j - 1].local is Some && !has_key(b2, rest[j - 1].local->Some_0));
                let l = rest[j - 1].local->Some_0;
                if take_a {
                    // b2 is b itself
                    assert(!has_key(b, l));
                } else {
                    // l is a local of the tail merge, so its key is at or
                    // above the head of a2, hence strictly above b[0]
                    assert(!has_key(b, l)) by {
                        if has_key(b, l) {
                            let k = choose|k: int|
                                0 <= k < b.len() && (#[trigger] b[k]).key_eq(l);
                            if k > 0 {
                                assert(b2[k - 1].key_eq(l));
                            } else {
                                // b[0]'s key is strictly below every key of a2,
                                // and l is at or above one of the tail heads
                                assert((a2.len() > 0 && a2[0].key_le(rest[j - 1].rep())) || (
                                b2.len() > 0 && b2[0].key_le(rest[j - 1].rep())));
                                assert(rest[j - 1].rep() == l);
                                if a2.len() > 0 && a2[0].key_le(l) {
                                    assert(b[0].key_lt(a2[0])) by {
                                        if take_b {
                                            assert(a2 == a);
                                        } else {
                                            assert(a2[0] == a[1]);
                                            assert(a[0].key_lt(a[1]));
                                            crate::migration::lemma_key_trichotomy(a[0], b[0]);
                                            if b[0].key_lt(a[0]) {
                                                crate::migration::lemma_key_lt_trans(
                                                    b[0],
                                                    a[0],
                                                    a2[0],
                                                );
                                            }
                                        }
                                    }
                                    lemma_lt_le_trans(b[0], a2[0], l);
                                    crate::migration::lemma_key_trichotomy(b[0], l);
                                } else {
                                    assert(b2[0] == b[1]);
                                    assert(b[0].key_lt(b[1]));
                                    lemma_lt_le_trans(b[0], b2[0], l);
                                    crate::migration::lemma_key_trichotomy(b[0], l);
                                }
                            }
                        }
                    }
                }
            }
        }
    }
}

} // verus!
