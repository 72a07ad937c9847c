use vstd::prelude::*;

verus! {

/// A configuration value as read from a TOML document.
///
/// A table keeps its entries in order in a `Vec`. Where a key occurs more than
/// once, its first entry is the one that counts (see `lookup`). Floats and
/// datetimes are not inspected by this library: `Other` keeps the text that
/// the parser's Display gives for them (the float `1.0` as `1`, for example).
#[derive(Debug, PartialEq)]
pub enum ConfigValue {
    String(String),
    Integer(i64),
    Boolean(bool),
    Array(Vec<ConfigValue>),
    Table(Vec<(String, ConfigValue)>),
    Other(String),
}

/// The key of the `i`-th entry of a table.
pub open spec fn key_at(e: Seq<(String, ConfigValue)>, i: int) -> Seq<char> {
    e[i].0@
}

pub open spec fn has_key(e: Seq<(String, ConfigValue)>, k: Seq<char>) -> bool {
    exists|i: int| 0 <= i < e.len() && #[trigger] key_at(e, i) == k
}

/// `i` is the position of the first entry with key `k`.
pub open spec fn first_at(e: Seq<(String, ConfigValue)>, k: Seq<char>, i: int) -> bool {
    &&& 0 <= i < e.len()
    &&& key_at(e, i) == k
    &&& forall|j: int| 0 <= j < i ==> #[trigger] key_at(e, j) != k
}

/// No key occurs in two entries.
pub open spec fn distinct_keys(e: Seq<(String, ConfigValue)>) -> bool {
    forall|i: int, j: int| 0 <= i < j < e.len() ==> #[trigger] key_at(e, i) != #[trigger] key_at(e, j)
}

/// The value of the first entry with key `k`, if any.
pub open spec fn lookup(e: Seq<(String, ConfigValue)>, k: Seq<char>) -> Option<ConfigValue> {
    if has_key(e, k) {
        Some(e[choose|i: int| first_at(e, k, i)].1)
    } else {
        None
    }
}

/// `m` is `r` laid over `l`, merging tables `depth` levels deep.
///
/// Where both sides are tables and depth remains, the result is a table with
/// every key of either side: a key on one side only keeps its value, and a key
/// on both sides holds the merge of the two values one level shallower. In every
/// other case (a side is not a table, or no depth remains) `r` replaces `l`
/// whole. So where a table meets a leaf, the later layer's value wins whichever
/// of the two it is: the overriding layer always wins a conflict, and a leaf
/// that overrides a table replaces it. (The first conjunct under the quantifier
/// only carries its trigger.)
pub open spec fn merged(l: ConfigValue, r: ConfigValue, m: ConfigValue, depth: nat) -> bool
    decreases depth,
{
    if depth > 0 && l is Table && r is Table {
        &&& m is Table
        &&& forall|k: Seq<char>| #[trigger]
            lookup(m->Table_0@, k) == lookup(m->Table_0@, k) && match (
                lookup(l->Table_0@, k),
                lookup(r->Table_0@, k),
            ) {
                (None, None) => lookup(m->Table_0@, k) is None,
                (Some(a), None) => lookup(m->Table_0@, k) == Some(a),
                (None, Some(b)) => lookup(m->Table_0@, k) == Some(b),
                (Some(a), Some(b)) => lookup(m->Table_0@, k) is Some && merged(
                    a,
                    b,
                    lookup(m->Table_0@, k)->0,
                    (depth - 1) as nat,
                ),
            }
    } else {
        m == r
    }
}

/// The first entry with a key decides its lookup.
pub proof fn lemma_lookup_first(e: Seq<(String, ConfigValue)>, k: Seq<char>, i: int)
    requires
        first_at(e, k, i),
    ensures
        lookup(e, k) == Some(e[i].1),
{
    assert(has_key(e, k));
    let c = choose|c: int| first_at(e, k, c);
    if c < i {
        assert(key_at(e, c) != k);
    } else if c > i {
        assert(key_at(e, i) != k);
    }
}

/// Where no entry has key `k`, its lookup is empty.
pub proof fn lemma_lookup_absent(e: Seq<(String, ConfigValue)>, k: Seq<char>)
    requires
        forall|j: int| 0 <= j < e.len() ==> #[trigger] key_at(e, j) != k,
    ensures
        lookup(e, k) is None,
{
}

/// Every key that occurs has a first entry.
pub proof fn lemma_first_exists(e: Seq<(String, ConfigValue)>, k: Seq<char>) -> (i: int)
    requires
        has_key(e, k),
    ensures
        first_at(e, k, i),
    decreases e.len(),
{
    let last = e.len() - 1;
    let init = e.drop_last();
    if has_key(init, k) {
        let i = lemma_first_exists(init, k);
        assert forall|j: int| 0 <= j < i implies #[trigger] key_at(e, j) != k by {
            assert(key_at(init, j) == key_at(e, j));
        }
        assert(key_at(init, i) == key_at(e, i));
        i
    } else {
        assert forall|j: int| 0 <= j < last implies #[trigger] key_at(e, j) != k by {
            assert(key_at(init, j) == key_at(e, j));
        }
        let w = choose|w: int| 0 <= w < e.len() && #[trigger] key_at(e, w) == k;
        if w < last {
            assert(key_at(init, w) == key_at(e, w));
        }
        last
    }
}

/// Lookups in a table whose keys are those of another, position by position.
proof fn lemma_same_keys(a: Seq<(String, ConfigValue)>, b: Seq<(String, ConfigValue)>, k: Seq<char>, i: int)
    requires
        a.len() == b.len(),
        forall|j: int| 0 <= j < a.len() ==> #[trigger] key_at(a, j) == key_at(b, j),
        forall|j: int| 0 <= j < a.len() && j != i ==> #[trigger] a[j] == b[j],
        has_key(a, k) ==> !first_at(a, k, i),
    ensures
        lookup(a, k) == lookup(b, k),
{
    if has_key(a, k) {
        let f = lemma_first_exists(a, k);
        assert forall|j: int| 0 <= j < f implies #[trigger] key_at(b, j) != k by {
            assert(key_at(a, j) == key_at(b, j));
        }
        assert(key_at(a, f) == key_at(b, f));
        lemma_lookup_first(a, k, f);
        lemma_lookup_first(b, k, f);
    } else {
        assert forall|j: int| 0 <= j < b.len() implies #[trigger] key_at(b, j) != k by {
            assert(key_at(a, j) == key_at(b, j));
        }
    }
}

/// Adding an entry at the end changes only the lookup of a key that was absent.
pub proof fn lemma_push(e: Seq<(String, ConfigValue)>, entry: (String, ConfigValue), k: Seq<char>)
    ensures
        has_key(e, k) || k != entry.0@ ==> lookup(e.push(entry), k) == lookup(e, k),
        !has_key(e, k) && k == entry.0@ ==> lookup(e.push(entry), k) == Some(entry.1),
{
    let n = e.push(entry);
    if has_key(e, k) {
        let f = lemma_first_exists(e, k);
        assert forall|j: int| 0 <= j < f implies #[trigger] key_at(n, j) != k by {
            assert(key_at(e, j) == key_at(n, j));
        }
        assert(key_at(e, f) == key_at(n, f));
        lemma_lookup_first(e, k, f);
        lemma_lookup_first(n, k, f);
    } else {
        assert forall|j: int| 0 <= j < e.len() implies #[trigger] key_at(n, j) != k by {
            assert(key_at(e, j) == key_at(n, j));
        }
        if k == entry.0@ {
            assert(key_at(n, e.len() as int) == k);
            lemma_lookup_first(n, k, e.len() as int);
        } else {
            assert(key_at(n, e.len() as int) != k);
        }
    }
}

/// The position of the first entry with key `k`.
pub fn find_key(e: &Vec<(String, ConfigValue)>, k: &String) -> (r: Option<usize>)
    ensures
        match r {
            Some(i) => first_at(e@, k@, i as int),
            None => !has_key(e@, k@),
        },
{
    let mut i: usize = 0;
    while i < e.len()
        invariant
            i <= e@.len(),
            forall|j: int| 0 <= j < i ==> #[trigger] key_at(e@, j) != k@,
        decreases e@.len() - i,
    {
        if e[i].0 == *k {
            return Some(i);
        }
        i += 1;
    }
    None
}

/// Whether `k` is among `keys`.
fn contains_key(keys: &Vec<String>, k: &String) -> (r: bool)
    ensures
        r == exists|i: int| 0 <= i < keys@.len() && #[trigger] keys@[i]@ == k@,
{
    let mut i: usize = 0;
    while i < keys.len()
        invariant
            i <= keys@.len(),
            forall|j: int| 0 <= j < i ==> #[trigger] keys@[j]@ != k@,
        decreases keys@.len() - i,
    {
        if keys[i] == *k {
            return true;
        }
        i += 1;
    }
    false
}

/// What the merge of two tables holds for key `k` once the first `j` entries of
/// the right side `re` are laid over the left side `le`.
pub open spec fn merged_so_far(
    le: Seq<(String, ConfigValue)>,
    re: Seq<(String, ConfigValue)>,
    acc: Seq<(String, ConfigValue)>,
    j: int,
    k: Seq<char>,
    depth: nat,
) -> bool {
    if has_key(re.subrange(0, j), k) {
        match (lookup(le, k), lookup(re, k)) {
            (Some(a), Some(b)) => lookup(acc, k) is Some && merged(a, b, lookup(acc, k)->0, depth),
            (None, Some(b)) => lookup(acc, k) == Some(b),
            _ => false,
        }
    } else {
        lookup(acc, k) == lookup(le, k)
    }
}

/// Lays `right` over `left`, merging tables `depth` levels deep (see `merged`).
pub fn merge_values(left: ConfigValue, right: ConfigValue, depth: usize) -> (m: ConfigValue)
    ensures
        merged(left, right, m, depth as nat),
        ((left is Table ==> distinct_keys(left->Table_0@)) && (right is Table ==> distinct_keys(
            right->Table_0@,
        )) && m is Table) ==> distinct_keys(m->Table_0@),
    decreases depth,
{
    let ghost l0 = left;
    let ghost r0 = right;
    if depth == 0 {
        return right;
    }
    match left {
        ConfigValue::Table(left_entries) => {
            match right {
                ConfigValue::Table(right_entries) => {
                    let mut acc = left_entries;
                    let mut rest = right_entries;
                    let mut seen: Vec<String> = Vec::new();
                    let ghost le = acc@;
                    let ghost re = rest@;
                    while rest.len() > 0
                        invariant
                            0 < depth,
                            l0 is Table && l0->Table_0@ == le,
                            r0 is Table && r0->Table_0@ == re,
                            seen@.len() + rest@.len() == re.len(),
                            rest@ == re.subrange(seen@.len() as int, re.len() as int),
                            forall|i: int| 0 <= i < seen@.len() ==> #[trigger] seen@[i]@ == key_at(re, i),
                            distinct_keys(le) ==> distinct_keys(acc@),
                            forall|k: Seq<char>| #[trigger]
                                merged_so_far(le, re, acc@, seen@.len() as int, k, (depth - 1) as nat),
                        decreases rest@.len(),
                    {
                        let ghost j = seen@.len() as int;
                        let ghost acc_before = acc@;
                        proof {
                            assert(rest@[0] == re[j]);
                        }
                        let (key, rv) = rest.remove(0);
                        let dup = contains_key(&seen, &key);
                        proof {
                            assert(key_at(re, j) == key@);
                            assert(re.subrange(0, j + 1) == re.subrange(0, j).push(re[j]));
                            assert forall|k: Seq<char>| #[trigger] has_key(re.subrange(0, j + 1), k) == (has_key(re.subrange(0, j), k) || k == key@) by {
                                let p = re.subrange(0, j);
                                let q = re.subrange(0, j + 1);
                                if has_key(q, k) && k != key@ {
                                    let w = choose|w: int| 0 <= w < q.len() && #[trigger] key_at(q, w) == k;
                                    assert(key_at(p, w) == k);
                                }
                                if has_key(p, k) {
                                    let w = choose|w: int| 0 <= w < p.len() && #[trigger] key_at(p, w) == k;
                                    assert(key_at(q, w) == k);
                                }
                                if k == key@ {
                                    assert(key_at(q, j) == k);
                                }
                            }
                            if dup {
                                let w = choose|w: int| 0 <= w < seen@.len() && #[trigger] seen@[w]@ == key@;
                                assert(key_at(re.subrange(0, j), w) == key@);
                            } else {
                                assert forall|w: int| 0 <= w < j implies #[trigger] key_at(re, w) != key@ by {
                                    assert(seen@[w]@ == key_at(re, w));
                                }
                                assert(first_at(re, key@, j));
                                lemma_lookup_first(re, key@, j);
                                assert(!has_key(re.subrange(0, j), key@)) by {
                                    if has_key(re.subrange(0, j), key@) {
                                        let w = choose|w: int| 0 <= w < j && #[trigger] key_at(re.subrange(0, j), w) == key@;
                                        assert(key_at(re, w) == key@);
                                    }
                                }
                                assert(merged_so_far(le, re, acc_before, j, key@, (depth - 1) as nat));
                            }
                        }
                        seen.push(key.clone());
                        if !dup {
                            match find_key(&acc, &key) {
                                Some(i) => {
                                    proof {
                                        lemma_lookup_first(acc_before, key@, i as int);
                                    }
                                    let (k2, lv) = acc.remove(i);
                                    let mv = merge_values(lv, rv, depth - 1);
                                    acc.insert(i, (k2, mv));
                                    proof {
                                        let a = acc@;
                                        assert(a.len() == acc_before.len());
                                        assert forall|x: int| 0 <= x < a.len() implies #[trigger] key_at(a, x) == key_at(acc_before, x) by {
                                            if x < i {
                                                assert(a[x] == acc_before[x]);
                                            } else if x > i {
                                                assert(a[x] == acc_before[x]);
                                            }
                                        }
                                        assert forall|x: int| 0 <= x < a.len() && x != i implies #[trigger] a[x] == acc_before[x] by {
                                            if x < i {
                                                assert(a[x] == acc_before[x]);
                                            } else {
                                                assert(a[x] == acc_before[x]);
                                            }
                                        }
                                        assert forall|x: int| 0 <= x < i implies #[trigger] key_at(a, x) != key@ by {
                                            assert(key_at(acc_before, x) != key@);
                                        }
                                        lemma_lookup_first(a, key@, i as int);
                                        if distinct_keys(le) {
                                            assert forall|x: int, y: int| 0 <= x < y < a.len() implies #[trigger] key_at(a, x) != #[trigger] key_at(a, y) by {
                                                assert(key_at(a, x) == key_at(acc_before, x));
                                                assert(key_at(a, y) == key_at(acc_before, y));
                                            }
                                        }
                                        assert forall|k: Seq<char>| #[trigger]
                                            merged_so_far(le, re, acc@, j + 1, k, (depth - 1) as nat) by {
                                            if k != key@ {
                                                lemma_same_keys(acc_before, a, k, i as int);
                                                assert(merged_so_far(le, re, acc_before, j, k, (depth - 1) as nat));
                                            }
                                        }
                                    }
                                },
                                None => {
                                    proof {
                                        lemma_lookup_absent(acc_before, key@);
                                    }
                                    acc.push((key, rv));
                                    proof {
                                        if distinct_keys(le) {
                                            let a = acc@;
                                            assert forall|x: int, y: int| 0 <= x < y < a.len() implies #[trigger] key_at(a, x) != #[trigger] key_at(a, y) by {
                                                assert(key_at(a, x) == key_at(acc_before, x));
                                                if y < acc_before.len() {
                                                    assert(key_at(a, y) == key_at(acc_before, y));
                                                }
                                            }
                                        }
                                        assert forall|k: Seq<char>| #[trigger]
                                            merged_so_far(le, re, acc@, j + 1, k, (depth - 1) as nat) by {
                                            lemma_push(acc_before, (key, rv), k);
                                            assert(merged_so_far(le, re, acc_before, j, k, (depth - 1) as nat));
                                        }
                                    }
                                },
                            }
                        } else {
                            proof {
                                assert forall|k: Seq<char>| #[trigger]
                                    merged_so_far(le, re, acc@, j + 1, k, (depth - 1) as nat) by {
                                    assert(merged_so_far(le, re, acc_before, j, k, (depth - 1) as nat));
                                }
                            }
                        }
                        proof {
                            assert(rest@ == re.subrange(seen@.len() as int, re.len() as int));
                        }
                    }
                    proof {
                        assert(re.subrange(0, re.len() as int) == re);
                        assert forall|k: Seq<char>| #[trigger] lookup(acc@, k) == lookup(acc@, k) && match (
                            lookup(le, k),
                            lookup(re, k),
                        ) {
                            (None, None) => lookup(acc@, k) is None,
                            (Some(a), None) => lookup(acc@, k) == Some(a),
                            (None, Some(b)) => lookup(acc@, k) == Some(b),
                            (Some(a), Some(b)) => lookup(acc@, k) is Some && merged(
                                a,
                                b,
                                lookup(acc@, k)->0,
                                (depth - 1) as nat,
                            ),
                        } by {
                            assert(merged_so_far(le, re, acc@, re.len() as int, k, (depth - 1) as nat));
                            if has_key(re, k) {
                                let f = lemma_first_exists(re, k);
                                lemma_lookup_first(re, k, f);
                            }
                        }
                    }
                    ConfigValue::Table(acc)
                },
                other => other,
            }
        },
        _ => right,
    }
}

/// Two leaves that hold the same thing: strings by their characters, anything
/// else by equality.
pub open spec fn same_leaf(a: ConfigValue, b: ConfigValue) -> bool {
    match (a, b) {
        (ConfigValue::String(x), ConfigValue::String(y)) => x@ == y@,
        (ConfigValue::Other(x), ConfigValue::Other(y)) => x@ == y@,
        _ => a == b,
    }
}

/// `a` and `b` hold the same keys, `depth` levels of tables deep, with the
/// same values under them. (The first conjunct under the quantifier only
/// carries its trigger.)
pub open spec fn same_tree(a: ConfigValue, b: ConfigValue, depth: nat) -> bool
    decreases depth,
{
    if depth > 0 && a is Table && b is Table {
        forall|k: Seq<char>| #[trigger]
            lookup(a->Table_0@, k) == lookup(a->Table_0@, k) && match (
                lookup(a->Table_0@, k),
                lookup(b->Table_0@, k),
            ) {
                (None, None) => true,
                (Some(x), Some(y)) => same_tree(x, y, (depth - 1) as nat),
                _ => false,
            }
    } else {
        same_leaf(a, b)
    }
}

pub proof fn lemma_same_tree_refl(a: ConfigValue, depth: nat)
    ensures
        same_tree(a, a, depth),
    decreases depth,
{
    if depth > 0 && a is Table {
        assert forall|k: Seq<char>| #[trigger] lookup(a->Table_0@, k) == lookup(a->Table_0@, k) && match (
            lookup(a->Table_0@, k),
            lookup(a->Table_0@, k),
        ) {
            (None, None) => true,
            (Some(x), Some(y)) => same_tree(x, y, (depth - 1) as nat),
            _ => false,
        } by {
            if let Some(x) = lookup(a->Table_0@, k) {
                lemma_same_tree_refl(x, (depth - 1) as nat);
            }
        }
    }
}

pub proof fn lemma_same_tree_trans(a: ConfigValue, b: ConfigValue, c: ConfigValue, depth: nat)
    requires
        same_tree(a, b, depth),
        same_tree(b, c, depth),
    ensures
        same_tree(a, c, depth),
    decreases depth,
{
    if depth > 0 && a is Table && b is Table && c is Table {
        assert forall|k: Seq<char>| #[trigger] lookup(a->Table_0@, k) == lookup(a->Table_0@, k) && match (
            lookup(a->Table_0@, k),
            lookup(c->Table_0@, k),
        ) {
            (None, None) => true,
            (Some(x), Some(y)) => same_tree(x, y, (depth - 1) as nat),
            _ => false,
        } by {
            assert(lookup(b->Table_0@, k) == lookup(b->Table_0@, k));
            if let (Some(x), Some(y), Some(z)) = (lookup(a->Table_0@, k), lookup(b->Table_0@, k), lookup(c->Table_0@, k)) {
                lemma_same_tree_trans(x, y, z, (depth - 1) as nat);
            }
        }
    } else if depth > 0 && a is Table && b is Table {
        assert(!(c is Table));
    }
}

/// Merging a tree with itself gives the same tree back.
pub proof fn lemma_merge_self(x: ConfigValue, m: ConfigValue, depth: nat)
    requires
        merged(x, x, m, depth),
    ensures
        same_tree(m, x, depth),
    decreases depth,
{
    if depth > 0 && x is Table {
        assert forall|k: Seq<char>| #[trigger] lookup(m->Table_0@, k) == lookup(m->Table_0@, k) && match (
            lookup(m->Table_0@, k),
            lookup(x->Table_0@, k),
        ) {
            (None, None) => true,
            (Some(p), Some(q)) => same_tree(p, q, (depth - 1) as nat),
            _ => false,
        } by {
            assert(lookup(m->Table_0@, k) == lookup(m->Table_0@, k));
            if let Some(a) = lookup(x->Table_0@, k) {
                lemma_merge_self(a, lookup(m->Table_0@, k)->0, (depth - 1) as nat);
            }
        }
    } else {
        lemma_same_tree_refl(x, depth);
    }
}

/// Laying the same tree over a result a second time changes nothing.
pub proof fn lemma_merge_again(b: ConfigValue, o: ConfigValue, m1: ConfigValue, m2: ConfigValue, depth: nat)
    requires
        merged(b, o, m1, depth),
        merged(m1, o, m2, depth),
    ensures
        same_tree(m2, m1, depth),
    decreases depth,
{
    if depth > 0 && o is Table {
        if b is Table {
            assert forall|k: Seq<char>| #[trigger] lookup(m2->Table_0@, k) == lookup(m2->Table_0@, k) && match (
                lookup(m2->Table_0@, k),
                lookup(m1->Table_0@, k),
            ) {
                (None, None) => true,
                (Some(p), Some(q)) => same_tree(p, q, (depth - 1) as nat),
                _ => false,
            } by {
                assert(lookup(m1->Table_0@, k) == lookup(m1->Table_0@, k));
                assert(lookup(m2->Table_0@, k) == lookup(m2->Table_0@, k));
                match lookup(o->Table_0@, k) {
                    None => {
                        if let Some(v) = lookup(m1->Table_0@, k) {
                            lemma_same_tree_refl(v, (depth - 1) as nat);
                        }
                    },
                    Some(ob) => {
                        let m1k = lookup(m1->Table_0@, k)->0;
                        let m2k = lookup(m2->Table_0@, k)->0;
                        match lookup(b->Table_0@, k) {
                            None => {
                                lemma_merge_self(ob, m2k, (depth - 1) as nat);
                            },
                            Some(bk) => {
                                lemma_merge_again(bk, ob, m1k, m2k, (depth - 1) as nat);
                            },
                        }
                    },
                }
            }
        } else {
            lemma_merge_self(o, m2, depth);
        }
    } else {
        lemma_same_tree_refl(o, depth);
    }
}

/// Laying one tree over two bases with the same contents gives results with the
/// same contents.
pub proof fn lemma_merge_congruent(
    b1: ConfigValue,
    b2: ConfigValue,
    o: ConfigValue,
    m1: ConfigValue,
    m2: ConfigValue,
    depth: nat,
)
    requires
        same_tree(b1, b2, depth),
        merged(b1, o, m1, depth),
        merged(b2, o, m2, depth),
    ensures
        same_tree(m1, m2, depth),
    decreases depth,
{
    if depth > 0 && o is Table && b1 is Table && b2 is Table {
        assert forall|k: Seq<char>| #[trigger] lookup(m1->Table_0@, k) == lookup(m1->Table_0@, k) && match (
            lookup(m1->Table_0@, k),
            lookup(m2->Table_0@, k),
        ) {
            (None, None) => true,
            (Some(p), Some(q)) => same_tree(p, q, (depth - 1) as nat),
            _ => false,
        } by {
            assert(lookup(b1->Table_0@, k) == lookup(b1->Table_0@, k));
            assert(lookup(m1->Table_0@, k) == lookup(m1->Table_0@, k));
            assert(lookup(m2->Table_0@, k) == lookup(m2->Table_0@, k));
            match lookup(o->Table_0@, k) {
                None => {},
                Some(ob) => {
                    match (lookup(b1->Table_0@, k), lookup(b2->Table_0@, k)) {
                        (Some(x), Some(y)) => {
                            lemma_merge_congruent(
                                x,
                                y,
                                ob,
                                lookup(m1->Table_0@, k)->0,
                                lookup(m2->Table_0@, k)->0,
                                (depth - 1) as nat,
                            );
                        },
                        _ => {
                            lemma_same_tree_refl(ob, (depth - 1) as nat);
                        },
                    }
                },
            }
        }
    } else if depth > 0 && o is Table {
        assert(!(b1 is Table) && !(b2 is Table));
        lemma_same_tree_refl(o, depth);
    } else {
        lemma_same_tree_refl(o, depth);
    }
}

/// Two tables whose entries have the same keys, position by position, and the
/// same contents under them, have the same contents.
pub proof fn lemma_same_tree_positional(a: ConfigValue, b: ConfigValue, depth: nat)
    requires
        depth > 0,
        a is Table,
        b is Table,
        a->Table_0@.len() == b->Table_0@.len(),
        forall|i: int| 0 <= i < a->Table_0@.len() ==> #[trigger] key_at(a->Table_0@, i) == key_at(b->Table_0@, i),
        forall|i: int|
            0 <= i < a->Table_0@.len() ==> #[trigger] same_tree(a->Table_0@[i].1, b->Table_0@[i].1, (depth - 1) as nat),
    ensures
        same_tree(a, b, depth),
{
    let ea = a->Table_0@;
    let eb = b->Table_0@;
    assert forall|k: Seq<char>| #[trigger] lookup(ea, k) == lookup(ea, k) && match (lookup(ea, k), lookup(eb, k)) {
        (None, None) => true,
        (Some(x), Some(y)) => same_tree(x, y, (depth - 1) as nat),
        _ => false,
    } by {
        if has_key(ea, k) {
            let f = lemma_first_exists(ea, k);
            assert forall|j: int| 0 <= j < f implies #[trigger] key_at(eb, j) != k by {
                assert(key_at(ea, j) == key_at(eb, j));
            }
            assert(key_at(ea, f) == key_at(eb, f));
            lemma_lookup_first(ea, k, f);
            lemma_lookup_first(eb, k, f);
            assert(same_tree(ea[f].1, eb[f].1, (depth - 1) as nat));
        } else {
            assert forall|j: int| 0 <= j < eb.len() implies #[trigger] key_at(eb, j) != k by {
                assert(key_at(ea, j) == key_at(eb, j));
            }
        }
    }
}

} // verus!
