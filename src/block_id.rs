//! Block identifiers: the first path segment of an object key, and the
//! order in which blocks are visited.

use vstd::prelude::*;

verus! {

/// The separator between a block identifier and the rest of an object key.
pub const SEPARATOR: char = '/';

/// `n` is the position of the first separator in `key`.
pub open spec fn first_separator_at(key: Seq<char>, n: int) -> bool {
    &&& 0 <= n < key.len()
    &&& key[n] == SEPARATOR
    &&& forall|j: int| 0 <= j < n ==> key[j] != SEPARATOR
}

/// The block a key belongs to: everything before its first separator, or
/// nothing when the key holds no separator.
pub open spec fn block_of(key: Seq<char>) -> Option<Seq<char>> {
    if exists|n: int| first_separator_at(key, n) {
        Some(key.take(choose|n: int| first_separator_at(key, n)))
    } else {
        None
    }
}

/// Lexicographic order on identifiers, character by character (by code
/// point), a proper prefix coming first.
pub open spec fn id_lt(a: Seq<char>, b: Seq<char>) -> bool {
    exists|k: int| #[trigger] differs_first_at(a, b, k)
}

/// `a` and `b` agree before `k`, and at `k` either `a` ends while `b` goes
/// on, or `a` holds the smaller character.
pub open spec fn differs_first_at(a: Seq<char>, b: Seq<char>, k: int) -> bool {
    &&& 0 <= k <= a.len()
    &&& k <= b.len()
    &&& forall|j: int| 0 <= j < k ==> a[j] == b[j]
    &&& ((k == a.len() && k < b.len()) || (k < a.len() && k < b.len() && (a[k] as int) < (b[k]
        as int)))
}

pub proof fn lemma_first_separator_unique(key: Seq<char>, n: int, m: int)
    requires
        first_separator_at(key, n),
        first_separator_at(key, m),
    ensures
        n == m,
{
}

pub proof fn lemma_block_of_at(key: Seq<char>, n: int)
    requires
        first_separator_at(key, n),
    ensures
        block_of(key) == Some(key.take(n)),
{
    let m = choose|m: int| first_separator_at(key, m);
    lemma_first_separator_unique(key, n, m);
}

pub proof fn lemma_id_lt_irreflexive(a: Seq<char>)
    ensures
        !id_lt(a, a),
{
}

pub proof fn lemma_id_lt_asymmetric(a: Seq<char>, b: Seq<char>)
    requires
        id_lt(a, b),
    ensures
        !id_lt(b, a),
{
    let k = choose|k: int| differs_first_at(a, b, k);
    if id_lt(b, a) {
        let l = choose|l: int| differs_first_at(b, a, l);
        if k < l {
            assert(b[k] == a[k]);
        } else if l < k {
            assert(a[l] == b[l]);
        }
    }
}

pub proof fn lemma_id_lt_transitive(a: Seq<char>, b: Seq<char>, c: Seq<char>)
    requires
        id_lt(a, b),
        id_lt(b, c),
    ensures
        id_lt(a, c),
{
    let k = choose|k: int| differs_first_at(a, b, k);
    let l = choose|l: int| differs_first_at(b, c, l);
    if k < l {
        assert(differs_first_at(a, c, k));
    } else if l < k {
        assert(differs_first_at(a, c, l));
    } else {
        assert(differs_first_at(a, c, k));
    }
}

pub proof fn lemma_id_lt_total(a: Seq<char>, b: Seq<char>)
    requires
        a != b,
    ensures
        id_lt(a, b) || id_lt(b, a),
{
    lemma_id_lt_total_from(a, b, 0);
}

proof fn lemma_id_lt_total_from(a: Seq<char>, b: Seq<char>, i: int)
    requires
        a != b,
        0 <= i <= a.len(),
        i <= b.len(),
        forall|j: int| 0 <= j < i ==> a[j] == b[j],
    ensures
        id_lt(a, b) || id_lt(b, a),
    decreases a.len() - i,
{
    if i == a.len() && i == b.len() {
        assert(a =~= b);
    } else if i == a.len() {
        assert(differs_first_at(a, b, i));
    } else if i == b.len() {
        assert(differs_first_at(b, a, i));
    } else if a[i] == b[i] {
        lemma_id_lt_total_from(a, b, i + 1);
    } else if (a[i] as int) < (b[i] as int) {
        assert(differs_first_at(a, b, i));
    } else {
        assert(differs_first_at(b, a, i));
    }
}

/// The block identifier of `key`, or `None` when the key has no separator
/// and so does not follow the block layout.
pub fn block_id(key: &str) -> (r: Option<String>)
    ensures
        r matches Some(b) ==> block_of(key@) == Some(b@),
        r is None ==> block_of(key@) is None,
{
    let n = key.unicode_len();
    let mut i: usize = 0;
    while i < n
        invariant
            n == key@.len(),
            i <= n,
            forall|j: int| 0 <= j < i ==> key@[j] != SEPARATOR,
        decreases n - i,
    {
        if key.get_char(i) == SEPARATOR {
            proof {
                lemma_block_of_at(key@, i as int);
            }
            return Some(key.substring_char(0, i).to_owned());
        }
        i = i + 1;
    }
    None
}

/// Whether `a` comes strictly before `b` in identifier order.
pub fn id_less(a: &str, b: &str) -> (r: bool)
    ensures
        r == id_lt(a@, b@),
{
    let n = a.unicode_len();
    let m = b.unicode_len();
    let mut i: usize = 0;
    while i < n && i < m
        invariant
            n == a@.len(),
            m == b@.len(),
            i <= n,
            i <= m,
            forall|j: int| 0 <= j < i ==> a@[j] == b@[j],
        decreases n - i,
    {
        let ca = a.get_char(i);
        let cb = b.get_char(i);
        if ca != cb {
            if (ca as u32) < (cb as u32) {
                assert(differs_first_at(a@, b@, i as int));
                return true;
            } else {
                assert(differs_first_at(b@, a@, i as int));
                proof {
                    lemma_id_lt_asymmetric(b@, a@);
                }
                return false;
            }
        }
        i = i + 1;
    }
    if i == n && i < m {
        assert(differs_first_at(a@, b@, i as int));
        true
    } else {
        proof {
            if id_lt(a@, b@) {
                let k = choose|k: int| differs_first_at(a@, b@, k);
                assert(k >= i);
            }
        }
        false
    }
}

} // verus!
