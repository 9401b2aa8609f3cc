use vstd::prelude::*;
use vstd::string::*;
use crate::listing::{names_of, FsEntry};

verus! {

/// Whether `a` comes before `b`, or is `b`, in the order of the code points:
/// the first place where they differ decides, and a name comes before those
/// that extend it.
pub open spec fn name_le(a: Seq<char>, b: Seq<char>) -> bool
    decreases a.len(),
{
    if a.len() == 0 {
        true
    } else if b.len() == 0 {
        false
    } else if (a[0] as u32) < (b[0] as u32) {
        true
    } else if (b[0] as u32) < (a[0] as u32) {
        false
    } else {
        name_le(a.subrange(1, a.len() as int), b.subrange(1, b.len() as int))
    }
}

/// Decides `name_le`: walks both names to the first place where they
/// differ or one of them ends.
pub fn name_le_exec(a: &str, b: &str) -> (le: bool)
    ensures
        le == name_le(a@, b@),
{
    let n: usize = a.unicode_len();
    let m: usize = b.unicode_len();
    let mut i: usize = 0;
    assert(a@.subrange(0, n as int) =~= a@);
    assert(b@.subrange(0, m as int) =~= b@);
    while i < n && i < m
        invariant
            0 <= i <= n,
            i <= m,
            n == a@.len(),
            m == b@.len(),
            name_le(a@, b@) == name_le(a@.subrange(i as int, n as int), b@.subrange(i as int, m as int)),
        decreases n - i,
    {
        let x: u32 = a.get_char(i) as u32;
        let y: u32 = b.get_char(i) as u32;
        let ghost rest_a = a@.subrange(i as int, n as int);
        let ghost rest_b = b@.subrange(i as int, m as int);
        assert(rest_a[0] == a@[i as int] && rest_b[0] == b@[i as int]);
        if x < y {
            return true;
        }
        if y < x {
            return false;
        }
        assert(rest_a.subrange(1, rest_a.len() as int) =~= a@.subrange(i + 1, n as int));
        assert(rest_b.subrange(1, rest_b.len() as int) =~= b@.subrange(i + 1, m as int));
        i += 1;
    }
    i == n
}

/// Where a new name goes among the first `n` places of `order`: behind the
/// last of them whose name is not greater.
pub open spec fn insert_pos(names: Seq<Seq<char>>, order: Seq<usize>, name: Seq<char>, n: nat) -> nat
    decreases n,
{
    if n == 0 || n > order.len() {
        0
    } else if 0 <= order[n - 1] < names.len() && !name_le(names[order[n - 1] as int], name) {
        insert_pos(names, order, name, (n - 1) as nat)
    } else {
        n
    }
}

/// The places of the first `n` names, ordered by name; of two equal names
/// the one that came first stays first.
pub open spec fn sorted_order(names: Seq<Seq<char>>, n: nat) -> Seq<usize>
    decreases n,
{
    if n == 0 || n > names.len() {
        Seq::empty()
    } else {
        let prev = sorted_order(names, (n - 1) as nat);
        prev.insert(insert_pos(names, prev, names[n - 1], prev.len()) as int, (n - 1) as usize)
    }
}

/// `insert_pos` is a place in the list or just behind it.
pub proof fn lemma_insert_pos_range(names: Seq<Seq<char>>, order: Seq<usize>, name: Seq<char>, n: nat)
    requires
        n <= order.len(),
    ensures
        insert_pos(names, order, name, n) <= n,
    decreases n,
{
    if n > 0 {
        lemma_insert_pos_range(names, order, name, (n - 1) as nat);
    }
}

/// The order holds each of the first `n` places, and nothing else.
pub proof fn lemma_sorted_order_range(names: Seq<Seq<char>>, n: nat)
    requires
        n <= names.len(),
        names.len() <= usize::MAX,
    ensures
        sorted_order(names, n).len() == n,
        forall|k: int| 0 <= k < n ==> 0 <= #[trigger] sorted_order(names, n)[k] < n,
    decreases n,
{
    if n > 0 {
        lemma_sorted_order_range(names, (n - 1) as nat);
        let prev = sorted_order(names, (n - 1) as nat);
        lemma_insert_pos_range(names, prev, names[n - 1], prev.len());
    }
}

/// Of two names, one is not greater than the other.
pub proof fn lemma_name_le_total(a: Seq<char>, b: Seq<char>)
    ensures
        name_le(a, b) || name_le(b, a),
    decreases a.len(),
{
    if a.len() > 0 && b.len() > 0 && (a[0] as u32) == (b[0] as u32) {
        lemma_name_le_total(a.subrange(1, a.len() as int), b.subrange(1, b.len() as int));
    }
}

/// The order of names is transitive.
pub proof fn lemma_name_le_transitive(a: Seq<char>, b: Seq<char>, c: Seq<char>)
    requires
        name_le(a, b),
        name_le(b, c),
    ensures
        name_le(a, c),
    decreases a.len(),
{
    if a.len() > 0 && b.len() > 0 && c.len() > 0 && (a[0] as u32) == (b[0] as u32) && (b[0] as u32)
        == (c[0] as u32) {
        lemma_name_le_transitive(
            a.subrange(1, a.len() as int),
            b.subrange(1, b.len() as int),
            c.subrange(1, c.len() as int),
        );
    }
}

/// Whether the names at the places of `order` never go down.
pub open spec fn ascending(names: Seq<Seq<char>>, order: Seq<usize>) -> bool {
    forall|i: int, j: int|
        0 <= i < j < order.len() ==> name_le(
            #[trigger] names[order[i] as int],
            #[trigger] names[order[j] as int],
        )
}

/// Behind `insert_pos` every name is greater than the new one, and the name
/// just before it is not.
pub proof fn lemma_insert_pos_splits(
    names: Seq<Seq<char>>,
    order: Seq<usize>,
    name: Seq<char>,
    n: nat,
)
    requires
        n <= order.len(),
        forall|k: int| 0 <= k < order.len() ==> 0 <= #[trigger] order[k] < names.len(),
    ensures
        insert_pos(names, order, name, n) <= n,
        forall|k: int|
            insert_pos(names, order, name, n) <= k < n ==> !name_le(
                names[#[trigger] order[k] as int],
                name,
            ),
        insert_pos(names, order, name, n) > 0 ==> name_le(
            names[order[insert_pos(names, order, name, n) - 1] as int],
            name,
        ),
    decreases n,
{
    if n > 0 {
        lemma_insert_pos_splits(names, order, name, (n - 1) as nat);
    }
}

/// The order is a sorted arrangement of the places: it holds each of the
/// first `n` places once, and the names at its places never go down.
pub proof fn law_sorted_order(names: Seq<Seq<char>>, n: nat)
    requires
        n <= names.len(),
        names.len() <= usize::MAX,
    ensures
        sorted_order(names, n).len() == n,
        forall|k: int| 0 <= k < n ==> 0 <= #[trigger] sorted_order(names, n)[k] < n,
        sorted_order(names, n).no_duplicates(),
        ascending(names, sorted_order(names, n)),
    decreases n,
{
    lemma_sorted_order_range(names, n);
    if n > 0 {
        law_sorted_order(names, (n - 1) as nat);
        let prev = sorted_order(names, (n - 1) as nat);
        let name = names[n - 1];
        let pos = insert_pos(names, prev, name, prev.len()) as int;
        lemma_insert_pos_splits(names, prev, name, prev.len());
        let next = sorted_order(names, n);
        assert(next == prev.insert(pos, (n - 1) as usize));
        assert forall|i: int, j: int| 0 <= i < j < next.len() implies name_le(
            #[trigger] names[next[i] as int],
            #[trigger] names[next[j] as int],
        ) by {
            if j < pos {
                assert(next[i] == prev[i] && next[j] == prev[j]);
            } else if j == pos {
                assert(next[i] == prev[i]);
                if i < pos - 1 {
                    lemma_name_le_transitive(
                        names[prev[i] as int],
                        names[prev[pos - 1] as int],
                        name,
                    );
                }
            } else if i < pos {
                assert(next[i] == prev[i] && next[j] == prev[j - 1]);
            } else if i == pos {
                assert(next[j] == prev[j - 1]);
                lemma_name_le_total(names[prev[j - 1] as int], name);
            } else {
                assert(next[i] == prev[i - 1] && next[j] == prev[j - 1]);
            }
        }
        assert forall|i: int, j: int| 0 <= i < next.len() && 0 <= j < next.len() && i != j implies next[i] != next[j] by {
            let a = if i < pos { i } else { i - 1 };
            let b = if j < pos { j } else { j - 1 };
            if i != pos {
                assert(next[i] == prev[a]);
            }
            if j != pos {
                assert(next[j] == prev[b]);
            }
        }
    }
}

/// The places of the entries of a directory in the order in which they are
/// shown: by name.
pub fn sort_entries(entries: &Vec<FsEntry>) -> (order: Vec<usize>)
    ensures
        order@ == sorted_order(
            names_of(crate::listing::listings_of(entries@, entries@.len())),
            entries@.len(),
        ),
        order@.len() == entries@.len(),
        forall|k: int| 0 <= k < order@.len() ==> 0 <= #[trigger] order@[k] < entries@.len(),
{
    let ghost names = names_of(crate::listing::listings_of(entries@, entries@.len()));
    proof {
        crate::listing::lemma_listings_of(entries@, entries@.len());
    }
    let mut order: Vec<usize> = Vec::new();
    let mut i: usize = 0;
    while i < entries.len()
        invariant
            0 <= i <= entries@.len(),
            names.len() == entries@.len(),
            forall|j: int| 0 <= j < names.len() ==> #[trigger] names[j] == entries@[j].name@,
            order@ == sorted_order(names, i as nat),
        decreases entries@.len() - i,
    {
        proof {
            lemma_sorted_order_range(names, i as nat);
        }
        let mut k: usize = order.len();
        while k > 0 && !name_le_exec(entries[order[k - 1]].name.as_str(), entries[i].name.as_str())
            invariant
                0 <= k <= order@.len(),
                i < entries@.len(),
                order@.len() == i,
                names.len() == entries@.len(),
                forall|j: int| 0 <= j < names.len() ==> #[trigger] names[j] == entries@[j].name@,
                forall|j: int| 0 <= j < order@.len() ==> 0 <= #[trigger] order@[j] < i,
                insert_pos(names, order@, names[i as int], order@.len()) == insert_pos(
                    names,
                    order@,
                    names[i as int],
                    k as nat,
                ),
            decreases k,
        {
            k -= 1;
        }
        order.insert(k, i);
        i += 1;
    }
    proof {
        lemma_sorted_order_range(names, entries@.len());
    }
    order
}

} // verus!
