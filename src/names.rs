//! Topic and group names: which are valid, and how a sequence of names is
//! looked up.
use vstd::prelude::*;

verus! {

/// Largest number of characters in a topic or group name.
pub const MAX_NAME_LEN: usize = 64;

/// A character that may stand in a name: an ASCII letter or digit, `-` or
/// `_`. Names become directory and file names, so nothing else is allowed.
pub open spec fn name_char(c: char) -> bool {
    ('a' <= c && c <= 'z') || ('A' <= c && c <= 'Z') || ('0' <= c && c <= '9') || c == '-'
        || c == '_'
}

/// A valid topic or group name.
pub open spec fn name_ok(n: Seq<char>) -> bool {
    &&& 1 <= n.len() <= MAX_NAME_LEN
    &&& forall|i: int| 0 <= i < n.len() ==> name_char(#[trigger] n[i])
}

/// Whether `n` is a valid topic or group name.
pub fn valid_name(n: &String) -> (r: bool)
    ensures
        r == name_ok(n@),
{
    let len = n.as_str().unicode_len();
    if len == 0 || len > MAX_NAME_LEN {
        return false;
    }
    let mut i: usize = 0;
    while i < len
        invariant
            len == n@.len(),
            i <= len,
            forall|j: int| 0 <= j < i ==> name_char(#[trigger] n@[j]),
        decreases len - i,
    {
        let c = n.as_str().get_char(i);
        let ok = ('a' <= c && c <= 'z') || ('A' <= c && c <= 'Z') || ('0' <= c && c <= '9')
            || c == '-' || c == '_';
        if !ok {
            return false;
        }
        i = i + 1;
    }
    true
}

/// No name occurs twice.
pub open spec fn unique(ns: Seq<Seq<char>>) -> bool {
    forall|i: int, j: int| 0 <= i < j < ns.len() ==> ns[i] != ns[j]
}

/// Each name of `ns`, mapped to the position of its last occurrence.
pub open spec fn index_map(ns: Seq<Seq<char>>) -> Map<Seq<char>, int>
    decreases ns.len(),
{
    if ns.len() == 0 {
        Map::empty()
    } else {
        index_map(ns.drop_last()).insert(ns.last(), ns.len() - 1)
    }
}

pub proof fn lemma_index_map(ns: Seq<Seq<char>>)
    ensures
        forall|i: int|
            0 <= i < ns.len() ==> #[trigger] index_map(ns).contains_key(ns[i]) && index_map(
                ns,
            )[ns[i]] >= i,
        forall|k: Seq<char>| #[trigger]
            index_map(ns).contains_key(k) ==> 0 <= index_map(ns)[k] < ns.len() && ns[index_map(
                ns,
            )[k]] == k,
        unique(ns) ==> forall|i: int| 0 <= i < ns.len() ==> index_map(ns)[#[trigger] ns[i]] == i,
    decreases ns.len(),
{
    if ns.len() > 0 {
        let pre = ns.drop_last();
        lemma_index_map(pre);
        assert forall|i: int| 0 <= i < ns.len() implies #[trigger] index_map(ns).contains_key(
            ns[i],
        ) && index_map(ns)[ns[i]] >= i by {
            if i < ns.len() - 1 && ns[i] != ns.last() {
                assert(ns[i] == pre[i]);
                assert(index_map(pre).contains_key(pre[i]));
            }
        }
        assert forall|k: Seq<char>| #[trigger]
            index_map(ns).contains_key(k) implies 0 <= index_map(ns)[k] < ns.len() && ns[index_map(
            ns,
        )[k]] == k by {
            if k != ns.last() {
                assert(pre[index_map(pre)[k]] == k);
            }
        }
        if unique(ns) {
            assert forall|i: int| 0 <= i < ns.len() implies index_map(ns)[#[trigger] ns[i]]
                == i by {
                assert(index_map(ns).contains_key(ns[i]));
                let j = index_map(ns)[ns[i]];
                assert(ns[j] == ns[i]);
            }
        }
    }
}

/// Looks `k` up in `ns`, as `index_map` does.
pub fn find_name(ns: &Vec<String>, k: &String) -> (r: Option<usize>)
    ensures
        ({
            let names = ns@.map_values(|s: String| s@);
            match r {
                Some(i) => index_map(names).contains_key(k@) && index_map(names)[k@] == i,
                None => !index_map(names).contains_key(k@),
            }
        }),
{
    let ghost names = ns@.map_values(|s: String| s@);
    proof {
        lemma_index_map(names);
    }
    let mut i: usize = ns.len();
    while i > 0
        invariant
            i <= ns@.len(),
            names == ns@.map_values(|s: String| s@),
            forall|j: int| i <= j < ns@.len() ==> names[j] != k@,
        decreases i,
    {
        i = i - 1;
        if ns[i] == *k {
            proof {
                lemma_index_map(names);
            }
            assert(names[i as int] == ns@[i as int]@);
            assert(names[i as int] == k@);
            assert(index_map(names).contains_key(names[i as int]));
            let ghost m = index_map(names)[k@];
            assert(names[m] == k@);
            return Some(i);
        }
    }
    proof {
        lemma_index_map(names);
        if index_map(names).contains_key(k@) {
            let m = index_map(names)[k@];
            assert(names[m] == k@);
        }
    }
    None
}

/// The map from each name of `ns` to the value at the same position of `vs`.
pub open spec fn table<V>(ns: Seq<Seq<char>>, vs: Seq<V>) -> Map<Seq<char>, V> {
    Map::new(|k: Seq<char>| index_map(ns).contains_key(k), |k: Seq<char>| vs[index_map(ns)[k]])
}

pub proof fn lemma_table_get<V>(ns: Seq<Seq<char>>, vs: Seq<V>, i: int)
    requires
        unique(ns),
        0 <= i < ns.len(),
    ensures
        table(ns, vs).contains_key(ns[i]),
        table(ns, vs)[ns[i]] == vs[i],
{
    lemma_index_map(ns);
}

pub proof fn lemma_table_update<V>(ns: Seq<Seq<char>>, vs: Seq<V>, i: int, v: V)
    requires
        unique(ns),
        0 <= i < ns.len(),
        ns.len() == vs.len(),
    ensures
        table(ns, vs.update(i, v)) == table(ns, vs).insert(ns[i], v),
{
    lemma_index_map(ns);
    let a = table(ns, vs.update(i, v));
    let b = table(ns, vs).insert(ns[i], v);
    assert forall|k: Seq<char>| #[trigger] a.contains_key(k) implies a[k] == b[k] by {
        let j = index_map(ns)[k];
        assert(ns[j] == k);
        if k != ns[i] {
            assert(j != i);
        } else {
            assert(index_map(ns)[ns[i]] == i);
        }
    }
    assert(a =~= b);
}

pub proof fn lemma_table_push<V>(ns: Seq<Seq<char>>, vs: Seq<V>, k: Seq<char>, v: V)
    requires
        unique(ns),
        ns.len() == vs.len(),
        !index_map(ns).contains_key(k),
    ensures
        table(ns.push(k), vs.push(v)) == table(ns, vs).insert(k, v),
        unique(ns.push(k)),
{
    lemma_index_map(ns);
    assert(ns.push(k).drop_last() =~= ns);
    let a = table(ns.push(k), vs.push(v));
    let b = table(ns, vs).insert(k, v);
    assert forall|x: Seq<char>| #[trigger] a.contains_key(x) implies a[x] == b[x] by {
        if x != k {
            let j = index_map(ns)[x];
            assert(0 <= j < vs.len());
        }
    }
    assert(a =~= b);
    assert forall|i: int, j: int| 0 <= i < j < ns.push(k).len() implies ns.push(k)[i] != ns.push(
        k,
    )[j] by {
        if j == ns.len() {
            assert(index_map(ns).contains_key(ns[i]));
        }
    }
}

} // verus!
