//! Facts about duplicate-free sequences and the sets they enumerate.

use vstd::prelude::*;

verus! {

/// Appending a value that is not yet present keeps a sequence duplicate-free
/// and adds exactly that value to the set it enumerates.
pub proof fn lemma_push_fresh<A>(s: Seq<A>, a: A)
    requires
        s.no_duplicates(),
        !s.contains(a),
    ensures
        s.push(a).no_duplicates(),
        s.push(a).to_set() == s.to_set().insert(a),
{
    let t = s.push(a);
    assert forall|i: int, j: int| 0 <= i < t.len() && 0 <= j < t.len() && i != j implies t[i]
        != t[j] by {
        if i < s.len() {
            assert(s.contains(s[i]));
        }
        if j < s.len() {
            assert(s.contains(s[j]));
        }
    }
    assert forall|x: A| t.to_set().contains(x) <==> s.to_set().insert(a).contains(x) by {
        if t.to_set().contains(x) {
            let j = choose|j: int| 0 <= j < t.len() && t[j] == x;
            if j < s.len() {
                assert(s[j] == x);
            }
        }
        if s.to_set().insert(a).contains(x) {
            if x == a {
                assert(t[s.len() as int] == x);
            } else {
                let j = choose|j: int| 0 <= j < s.len() && s[j] == x;
                assert(t[j] == x);
            }
        }
    }
    assert(t.to_set() =~= s.to_set().insert(a));
}

/// Removing one position from a duplicate-free sequence keeps it
/// duplicate-free and removes exactly that value from the set it enumerates.
pub proof fn lemma_remove_at<A>(s: Seq<A>, i: int)
    requires
        s.no_duplicates(),
        0 <= i < s.len(),
    ensures
        s.remove(i).no_duplicates(),
        s.remove(i).to_set() == s.to_set().remove(s[i]),
        !s.remove(i).contains(s[i]),
{
    let t = s.remove(i);
    assert forall|x: int, y: int| 0 <= x < t.len() && 0 <= y < t.len() && x != y implies t[x]
        != t[y] by {
        let sx = if x < i { x } else { x + 1 };
        let sy = if y < i { y } else { y + 1 };
        assert(t[x] == s[sx]);
        assert(t[y] == s[sy]);
    }
    assert forall|a: A| t.to_set().contains(a) <==> s.to_set().remove(s[i]).contains(a) by {
        if t.to_set().contains(a) {
            let j = choose|j: int| 0 <= j < t.len() && t[j] == a;
            let sj = if j < i { j } else { j + 1 };
            assert(s[sj] == a);
        }
        if s.to_set().remove(s[i]).contains(a) {
            let j = choose|j: int| 0 <= j < s.len() && s[j] == a;
            let tj = if j < i { j } else { j - 1 };
            assert(t[tj] == a);
        }
    }
    assert(t.to_set() =~= s.to_set().remove(s[i]));
    if t.contains(s[i]) {
        assert(t.to_set().contains(s[i]));
    }
}

/// The map that pairs each key of `ks` with the value at the same position
/// of `vs`.
pub open spec fn paired<A, B>(ks: Seq<A>, vs: Seq<B>) -> Map<A, B> {
    Map::new(|k: A| ks.contains(k), |k: A| vs[ks.index_of(k)])
}

/// In a duplicate-free sequence a value is found at its own position.
pub proof fn lemma_index_of<A>(ks: Seq<A>, i: int)
    requires
        ks.no_duplicates(),
        0 <= i < ks.len(),
    ensures
        ks.contains(ks[i]),
        ks.index_of(ks[i]) == i,
{
    assert(ks.contains(ks[i]));
    let j = ks.index_of(ks[i]);
    assert(0 <= j < ks.len() && ks[j] == ks[i]);
}

/// Position `i` of the keys is paired with position `i` of the values.
pub proof fn lemma_paired_at<A, B>(ks: Seq<A>, vs: Seq<B>, i: int)
    requires
        ks.no_duplicates(),
        ks.len() == vs.len(),
        0 <= i < ks.len(),
    ensures
        paired(ks, vs).contains_key(ks[i]),
        paired(ks, vs)[ks[i]] == vs[i],
{
    lemma_index_of(ks, i);
}

/// The keys of the pairing are the values of the key sequence.
pub proof fn lemma_paired_dom<A, B>(ks: Seq<A>, vs: Seq<B>)
    ensures
        paired(ks, vs).dom() == ks.to_set(),
{
    assert(paired(ks, vs).dom() =~= ks.to_set());
}

/// Appending a fresh key with its value inserts that pair.
pub proof fn lemma_paired_push<A, B>(ks: Seq<A>, vs: Seq<B>, k: A, v: B)
    requires
        ks.no_duplicates(),
        ks.len() == vs.len(),
        !ks.contains(k),
    ensures
        paired(ks.push(k), vs.push(v)) == paired(ks, vs).insert(k, v),
{
    let ks2 = ks.push(k);
    let vs2 = vs.push(v);
    lemma_push_fresh(ks, k);
    let a = paired(ks2, vs2);
    let b = paired(ks, vs).insert(k, v);
    assert forall|x: A| a.contains_key(x) <==> b.contains_key(x) by {
        assert(ks2.to_set().contains(x) <==> ks.to_set().insert(k).contains(x));
    }
    assert forall|x: A| a.contains_key(x) implies a[x] == b[x] by {
        let j = choose|j: int| 0 <= j < ks2.len() && ks2[j] == x;
        lemma_paired_at(ks2, vs2, j);
        if j < ks.len() {
            assert(ks[j] == x);
            lemma_paired_at(ks, vs, j);
        }
    }
    assert(a =~= b);
}

/// Replacing the value at one position re-inserts that position's key.
pub proof fn lemma_paired_update<A, B>(ks: Seq<A>, vs: Seq<B>, i: int, v: B)
    requires
        ks.no_duplicates(),
        ks.len() == vs.len(),
        0 <= i < ks.len(),
    ensures
        paired(ks, vs.update(i, v)) == paired(ks, vs).insert(ks[i], v),
{
    let vs2 = vs.update(i, v);
    let a = paired(ks, vs2);
    let b = paired(ks, vs).insert(ks[i], v);
    lemma_index_of(ks, i);
    assert forall|x: A| a.contains_key(x) implies a[x] == b[x] by {
        let j = choose|j: int| 0 <= j < ks.len() && ks[j] == x;
        lemma_paired_at(ks, vs2, j);
        lemma_paired_at(ks, vs, j);
    }
    assert(a =~= b);
}

/// Removing one position from keys and values removes that position's key.
pub proof fn lemma_paired_remove<A, B>(ks: Seq<A>, vs: Seq<B>, i: int)
    requires
        ks.no_duplicates(),
        ks.len() == vs.len(),
        0 <= i < ks.len(),
    ensures
        paired(ks.remove(i), vs.remove(i)) == paired(ks, vs).remove(ks[i]),
{
    let ks2 = ks.remove(i);
    let vs2 = vs.remove(i);
    lemma_remove_at(ks, i);
    let a = paired(ks2, vs2);
    let b = paired(ks, vs).remove(ks[i]);
    assert forall|x: A| a.contains_key(x) <==> b.contains_key(x) by {
        assert(ks2.to_set().contains(x) <==> ks.to_set().remove(ks[i]).contains(x));
    }
    assert forall|x: A| a.contains_key(x) implies a[x] == b[x] by {
        let j = choose|j: int| 0 <= j < ks2.len() && ks2[j] == x;
        lemma_paired_at(ks2, vs2, j);
        let sj = if j < i { j } else { j + 1 };
        assert(ks[sj] == x);
        lemma_paired_at(ks, vs, sj);
    }
    assert(a =~= b);
}

} // verus!
