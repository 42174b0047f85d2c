//! Name-keyed sequences kept in strict ascending byte order, and the map
//! each of them stands for.
use vstd::prelude::*;
use vstd::utf8::{decode_utf8, encode_utf8};
use core::cmp::Ordering;

verus! {

broadcast use {vstd::utf8::encode_utf8_decode_utf8, vstd::utf8::encode_utf8_valid_utf8};

/// Strict lexicographic order on byte strings.
pub open spec fn bytes_lt(a: Seq<u8>, b: Seq<u8>) -> bool
    decreases a.len(),
{
    if a.len() == 0 {
        b.len() > 0
    } else if b.len() == 0 {
        false
    } else if a[0] != b[0] {
        a[0] < b[0]
    } else {
        bytes_lt(a.drop_first(), b.drop_first())
    }
}

/// Order of names: byte-lexicographic over their UTF-8 encoding.
pub open spec fn name_lt(a: Seq<char>, b: Seq<char>) -> bool {
    bytes_lt(encode_utf8(a), encode_utf8(b))
}

pub proof fn lemma_bytes_lt_transitive(a: Seq<u8>, b: Seq<u8>, c: Seq<u8>)
    requires
        bytes_lt(a, b),
        bytes_lt(b, c),
    ensures
        bytes_lt(a, c),
    decreases a.len(),
{
    if a.len() > 0 && a[0] == b[0] && b[0] == c[0] {
        lemma_bytes_lt_transitive(a.drop_first(), b.drop_first(), c.drop_first());
    }
}

pub proof fn lemma_bytes_lt_irreflexive(a: Seq<u8>)
    ensures
        !bytes_lt(a, a),
    decreases a.len(),
{
    if a.len() > 0 {
        lemma_bytes_lt_irreflexive(a.drop_first());
    }
}

/// Comparing past a common prefix.
proof fn lemma_bytes_lt_skip(a: Seq<u8>, b: Seq<u8>, i: int)
    requires
        0 <= i <= a.len(),
        i <= b.len(),
        a.subrange(0, i) == b.subrange(0, i),
    ensures
        bytes_lt(a, b) == bytes_lt(a.subrange(i, a.len() as int), b.subrange(i, b.len() as int)),
    decreases i,
{
    if i > 0 {
        assert(a[0] == a.subrange(0, i)[0]);
        assert(b[0] == b.subrange(0, i)[0]);
        let a1 = a.drop_first();
        let b1 = b.drop_first();
        assert(a1.subrange(0, i - 1) =~= a.subrange(0, i).drop_first());
        assert(b1.subrange(0, i - 1) =~= b.subrange(0, i).drop_first());
        lemma_bytes_lt_skip(a1, b1, i - 1);
        assert(a1.subrange(i - 1, a1.len() as int) =~= a.subrange(i, a.len() as int));
        assert(b1.subrange(i - 1, b1.len() as int) =~= b.subrange(i, b.len() as int));
    } else {
        assert(a.subrange(0, a.len() as int) =~= a);
        assert(b.subrange(0, b.len() as int) =~= b);
    }
}

/// Compares two names in byte order.
pub fn compare_names(a: &str, b: &str) -> (r: Ordering)
    ensures
        (r == Ordering::Less) == name_lt(a@, b@),
        (r == Ordering::Equal) == (a@ == b@),
        (r == Ordering::Greater) == name_lt(b@, a@),
{
    let ab = a.as_bytes();
    let bb = b.as_bytes();
    let ghost x = encode_utf8(a@);
    let ghost y = encode_utf8(b@);
    proof {
        lemma_bytes_lt_irreflexive(x);
        if a@ != b@ {
            assert(decode_utf8(x) == a@);
            assert(decode_utf8(y) == b@);
        }
    }
    let mut i: usize = 0;
    while i < ab.len() && i < bb.len()
        invariant
            x == encode_utf8(a@),
            y == encode_utf8(b@),
            ab@ == x,
            bb@ == y,
            i <= x.len(),
            i <= y.len(),
            x.subrange(0, i as int) == y.subrange(0, i as int),
        decreases x.len() - i,
    {
        if ab[i] != bb[i] {
            proof {
                assert(x[i as int] != y[i as int]);
                assert(x != y);
                if a@ == b@ {
                    assert(x == y);
                }
                lemma_bytes_lt_skip(x, y, i as int);
                lemma_bytes_lt_skip(y, x, i as int);
                assert(x.subrange(i as int, x.len() as int)[0] == x[i as int]);
                assert(y.subrange(i as int, y.len() as int)[0] == y[i as int]);
            }
            if ab[i] < bb[i] {
                return Ordering::Less;
            } else {
                return Ordering::Greater;
            }
        }
        proof {
            assert(x.subrange(0, i + 1) =~= x.subrange(0, i as int).push(x[i as int]));
            assert(y.subrange(0, i + 1) =~= y.subrange(0, i as int).push(y[i as int]));
        }
        i = i + 1;
    }
    proof {
        lemma_bytes_lt_skip(x, y, i as int);
        lemma_bytes_lt_skip(y, x, i as int);
    }
    if ab.len() == bb.len() {
        proof {
            assert(x =~= x.subrange(0, i as int));
            assert(y =~= y.subrange(0, i as int));
        }
        Ordering::Equal
    } else if i == ab.len() {
        Ordering::Less
    } else {
        Ordering::Greater
    }
}

/// An item of a sequence ordered by name.
pub trait Keyed {
    spec fn key(&self) -> Seq<char>;

    fn key_str(&self) -> (r: &str)
        ensures
            r@ == self.key(),
    ;
}

pub open spec fn strictly_sorted<T: Keyed>(s: Seq<T>) -> bool {
    forall|i: int, j: int| 0 <= i < j < s.len() ==> name_lt(#[trigger] s[i].key(), #[trigger] s[j].key())
}

/// The map from each item's name to a value read off the item.
pub open spec fn keyed_map<T: Keyed, V>(s: Seq<T>, val: spec_fn(T) -> V) -> Map<Seq<char>, V>
    decreases s.len(),
{
    if s.len() == 0 {
        Map::empty()
    } else {
        keyed_map(s.drop_last(), val).insert(s.last().key(), val(s.last()))
    }
}

pub proof fn lemma_sorted_keys_distinct<T: Keyed>(s: Seq<T>, i: int, j: int)
    requires
        strictly_sorted(s),
        0 <= i < s.len(),
        0 <= j < s.len(),
        i != j,
    ensures
        s[i].key() != s[j].key(),
{
    if i < j {
        assert(name_lt(s[i].key(), s[j].key()));
        lemma_bytes_lt_irreflexive(encode_utf8(s[i].key()));
    } else {
        assert(name_lt(s[j].key(), s[i].key()));
        lemma_bytes_lt_irreflexive(encode_utf8(s[j].key()));
    }
}

/// What a sorted sequence's map holds: exactly its names, each with its item's value.
pub proof fn lemma_keyed_map<T: Keyed, V>(s: Seq<T>, val: spec_fn(T) -> V)
    requires
        strictly_sorted(s),
    ensures
        forall|k: Seq<char>| #[trigger] keyed_map(s, val).contains_key(k)
            <==> exists|i: int| 0 <= i < s.len() && s[i].key() == k,
        forall|i: int| 0 <= i < s.len() ==> #[trigger] keyed_map(s, val)[s[i].key()] == val(s[i]),
    decreases s.len(),
{
    if s.len() > 0 {
        let t = s.subrange(0, s.len() - 1);
        assert(t =~= s.drop_last());
        assert(strictly_sorted(t)) by {
            assert forall|i: int, j: int| 0 <= i < j < t.len() implies name_lt(#[trigger] t[i].key(), #[trigger] t[j].key()) by {
                assert(t[i] == s[i] && t[j] == s[j]);
            }
        }
        lemma_keyed_map(t, val);
        let m = keyed_map(s, val);
        assert forall|k: Seq<char>| #[trigger] m.contains_key(k)
            <==> exists|i: int| 0 <= i < s.len() && s[i].key() == k by {
            if m.contains_key(k) && k != s.last().key() {
                assert(m == keyed_map(t, val).insert(s.last().key(), val(s.last())));
                assert(keyed_map(t, val).contains_key(k));
                let i = choose|i: int| 0 <= i < t.len() && t[i].key() == k;
                assert(s[i] == t[i]);
                assert(0 <= i < s.len() && s[i].key() == k);
            }
            if exists|i: int| 0 <= i < s.len() && s[i].key() == k {
                let i = choose|i: int| 0 <= i < s.len() && s[i].key() == k;
                if i < s.len() - 1 {
                    assert(t[i] == s[i]);
                    assert(keyed_map(t, val).contains_key(k));
                }
            }
        }
        assert forall|i: int| 0 <= i < s.len() implies #[trigger] keyed_map(s, val)[s[i].key()] == val(s[i]) by {
            assert(m == keyed_map(t, val).insert(s.last().key(), val(s.last())));
            if i < s.len() - 1 {
                lemma_sorted_keys_distinct(s, i, s.len() - 1);
                assert(t[i] == s[i]);
                assert(keyed_map(t, val)[t[i].key()] == val(t[i]));
            }
        }
    }
}

/// Where a name stands in a sorted sequence: at an item that has it, or
/// where it would be inserted.
pub fn find_slot<T: Keyed>(v: &Vec<T>, key: &str) -> (r: (bool, usize))
    requires
        strictly_sorted(v@),
    ensures
        r.1 <= v@.len(),
        r.0 ==> r.1 < v@.len() && v@[r.1 as int].key() == key@,
        !r.0 ==> forall|i: int| 0 <= i < r.1 ==> name_lt(#[trigger] v@[i].key(), key@),
        !r.0 ==> forall|i: int| r.1 <= i < v@.len() ==> name_lt(key@, #[trigger] v@[i].key()),
{
    let mut i: usize = 0;
    while i < v.len()
        invariant
            i <= v@.len(),
            strictly_sorted(v@),
            forall|j: int| 0 <= j < i ==> name_lt(#[trigger] v@[j].key(), key@),
        decreases v@.len() - i,
    {
        match compare_names(v[i].key_str(), key) {
            Ordering::Less => {
                i = i + 1;
            },
            Ordering::Equal => {
                return (true, i);
            },
            Ordering::Greater => {
                proof {
                    assert forall|j: int| i <= j < v@.len() implies name_lt(key@, #[trigger] v@[j].key()) by {
                        if j > i {
                            lemma_bytes_lt_transitive(
                                encode_utf8(key@),
                                encode_utf8(v@[i as int].key()),
                                encode_utf8(v@[j].key()),
                            );
                        }
                    }
                }
                return (false, i);
            },
        }
    }
    (false, i)
}

/// Inserting a new name at its slot keeps the sequence sorted and adds the
/// name to its map.
pub proof fn lemma_insert_at_slot<T: Keyed, V>(s: Seq<T>, idx: int, x: T, val: spec_fn(T) -> V)
    requires
        strictly_sorted(s),
        0 <= idx <= s.len(),
        forall|i: int| 0 <= i < idx ==> name_lt(#[trigger] s[i].key(), x.key()),
        forall|i: int| idx <= i < s.len() ==> name_lt(x.key(), #[trigger] s[i].key()),
    ensures
        strictly_sorted(s.insert(idx, x)),
        keyed_map(s.insert(idx, x), val) == keyed_map(s, val).insert(x.key(), val(x)),
{
    let t = s.insert(idx, x);
    assert forall|i: int, j: int| 0 <= i < j < t.len() implies name_lt(#[trigger] t[i].key(), #[trigger] t[j].key()) by {
        if j < idx {
            assert(t[i] == s[i] && t[j] == s[j]);
        } else if j == idx {
            assert(t[i] == s[i]);
        } else if i == idx {
            assert(t[j] == s[j - 1]);
        } else if i < idx {
            assert(t[i] == s[i] && t[j] == s[j - 1]);
            lemma_bytes_lt_transitive(encode_utf8(s[i].key()), encode_utf8(x.key()), encode_utf8(s[j - 1].key()));
        } else {
            assert(t[i] == s[i - 1] && t[j] == s[j - 1]);
        }
    }
    lemma_keyed_map(s, val);
    lemma_keyed_map(t, val);
    let m = keyed_map(s, val).insert(x.key(), val(x));
    assert forall|k: Seq<char>| #[trigger] keyed_map(t, val).contains_key(k) <==> m.contains_key(k) by {
        if m.contains_key(k) && k != x.key() {
            let i = choose|i: int| 0 <= i < s.len() && s[i].key() == k;
            if i < idx {
                assert(t[i] == s[i]);
            } else {
                assert(t[i + 1] == s[i]);
            }
        }
        if k == x.key() {
            assert(t[idx] == x);
        }
        if keyed_map(t, val).contains_key(k) {
            let i = choose|i: int| 0 <= i < t.len() && t[i].key() == k;
            if i < idx {
                assert(t[i] == s[i]);
            } else if i > idx {
                assert(t[i] == s[i - 1]);
            }
        }
    }
    assert forall|k: Seq<char>| #[trigger] keyed_map(t, val).contains_key(k) implies keyed_map(t, val)[k] == m[k] by {
        let i = choose|i: int| 0 <= i < t.len() && t[i].key() == k;
        assert(keyed_map(t, val)[t[i].key()] == val(t[i]));
        lemma_bytes_lt_irreflexive(encode_utf8(k));
        if i < idx {
            assert(t[i] == s[i]);
            assert(keyed_map(s, val)[s[i].key()] == val(s[i]));
        } else if i > idx {
            assert(t[i] == s[i - 1]);
            assert(keyed_map(s, val)[s[i - 1].key()] == val(s[i - 1]));
        } else {
            assert(t[idx] == x);
        }
    }
    assert(keyed_map(t, val) =~= m);
}

/// Replacing the item that has a name by another with the same name keeps
/// the sequence sorted and sets the name's value.
pub proof fn lemma_replace_at_slot<T: Keyed, V>(s: Seq<T>, idx: int, x: T, val: spec_fn(T) -> V)
    requires
        strictly_sorted(s),
        0 <= idx < s.len(),
        s[idx].key() == x.key(),
    ensures
        strictly_sorted(s.update(idx, x)),
        keyed_map(s.update(idx, x), val) == keyed_map(s, val).insert(x.key(), val(x)),
{
    let t = s.update(idx, x);
    assert forall|i: int, j: int| 0 <= i < j < t.len() implies name_lt(#[trigger] t[i].key(), #[trigger] t[j].key()) by {
        assert(t[i].key() == s[i].key() && t[j].key() == s[j].key());
    }
    lemma_keyed_map(s, val);
    lemma_keyed_map(t, val);
    let m = keyed_map(s, val).insert(x.key(), val(x));
    assert forall|k: Seq<char>| #[trigger] keyed_map(t, val).contains_key(k) <==> m.contains_key(k) by {
        if m.contains_key(k) && k != x.key() {
            let i = choose|i: int| 0 <= i < s.len() && s[i].key() == k;
            assert(t[i].key() == s[i].key());
        }
        if k == x.key() {
            assert(t[idx] == x);
        }
        if keyed_map(t, val).contains_key(k) {
            let i = choose|i: int| 0 <= i < t.len() && t[i].key() == k;
            assert(t[i].key() == s[i].key());
        }
    }
    assert forall|k: Seq<char>| #[trigger] keyed_map(t, val).contains_key(k) implies keyed_map(t, val)[k] == m[k] by {
        let i = choose|i: int| 0 <= i < t.len() && t[i].key() == k;
        assert(keyed_map(t, val)[t[i].key()] == val(t[i]));
        if i != idx {
            lemma_sorted_keys_distinct(s, i, idx);
            assert(t[i] == s[i]);
            assert(keyed_map(s, val)[s[i].key()] == val(s[i]));
        } else {
            assert(t[idx] == x);
        }
    }
    assert(keyed_map(t, val) =~= m);
}

} // verus!
