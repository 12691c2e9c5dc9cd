//! The configuration document: an ordered mapping from string keys to
//! dynamically typed values.  Keys are unique; insertion order is preserved
//! for stable serialization but carries no meaning for lookups.

use vstd::prelude::*;

verus! {

/// One dynamically typed value of the document.  A scalar number read from
/// storage is either an integer (`Int`) or kept as its decimal text
/// (`Float`); the guard never does arithmetic on the latter.
#[derive(Debug, PartialEq)]
pub enum ConfigValue {
    Null,
    Bool(bool),
    Int(i128),
    Float(String),
    Str(String),
    List(Vec<ConfigValue>),
    Mapping(ConfigDoc),
}

/// An ordered key/value document with unique string keys.
#[derive(Debug, PartialEq, Default)]
pub struct ConfigDoc {
    pub entries: Vec<(String, ConfigValue)>,
}

/// The mathematical shape of one value.  Scalars are abstracted to their
/// contents; the elements of lists and nested mappings are carried through
/// as they are, since the guard only moves them, never rewrites them.
pub enum Val {
    VNull,
    VBool(bool),
    VInt(int),
    VFloat(Seq<char>),
    VStr(Seq<char>),
    VList(Seq<ConfigValue>),
    VMap(Seq<(Seq<char>, ConfigValue)>),
}

/// The abstraction of a single value.
pub open spec fn val_view(v: ConfigValue) -> Val {
    match v {
        ConfigValue::Null => Val::VNull,
        ConfigValue::Bool(b) => Val::VBool(b),
        ConfigValue::Int(i) => Val::VInt(i as int),
        ConfigValue::Float(s) => Val::VFloat(s@),
        ConfigValue::Str(s) => Val::VStr(s@),
        ConfigValue::List(items) => Val::VList(items@),
        ConfigValue::Mapping(d) => Val::VMap(
            d.entries@.map_values(|e: (String, ConfigValue)| (e.0@, e.1)),
        ),
    }
}

impl View for ConfigDoc {
    type V = Seq<(Seq<char>, Val)>;

    open spec fn view(&self) -> Seq<(Seq<char>, Val)> {
        self.entries@.map_values(|e: (String, ConfigValue)| (e.0@, val_view(e.1)))
    }
}

/// Index of the first entry bound to `k`, or `-1` when `k` is unbound.
pub open spec fn key_index(d: Seq<(Seq<char>, Val)>, k: Seq<char>) -> int
    decreases d.len(),
{
    if d.len() == 0 {
        -1
    } else if d[0].0 == k {
        0
    } else {
        let r = key_index(d.drop_first(), k);
        if r < 0 {
            -1
        } else {
            1 + r
        }
    }
}

/// The value bound to `k`, if any.
pub open spec fn dlookup(d: Seq<(Seq<char>, Val)>, k: Seq<char>) -> Option<Val> {
    let i = key_index(d, k);
    if i >= 0 {
        Some(d[i].1)
    } else {
        None
    }
}

/// Key-wise upsert: overwrite in place when `k` is bound, append otherwise.
pub open spec fn dinsert(d: Seq<(Seq<char>, Val)>, k: Seq<char>, v: Val) -> Seq<
    (Seq<char>, Val),
> {
    let i = key_index(d, k);
    if i >= 0 {
        d.update(i, (k, v))
    } else {
        d.push((k, v))
    }
}

/// Document well-formedness: keys are unique.
pub open spec fn doc_wf(d: Seq<(Seq<char>, Val)>) -> bool {
    forall|i: int, j: int| 0 <= i < j < d.len() ==> d[i].0 != d[j].0
}

pub proof fn lemma_key_index_range(d: Seq<(Seq<char>, Val)>, k: Seq<char>)
    ensures
        -1 <= key_index(d, k) < d.len(),
        key_index(d, k) >= 0 ==> d[key_index(d, k)].0 == k,
        key_index(d, k) < 0 ==> forall|i: int| 0 <= i < d.len() ==> d[i].0 != k,
        key_index(d, k) >= 0 ==> forall|i: int| 0 <= i < key_index(d, k) ==> d[i].0 != k,
    decreases d.len(),
{
    if d.len() != 0 && d[0].0 != k {
        lemma_key_index_range(d.drop_first(), k);
        assert forall|i: int| 0 <= i < d.len() && key_index(d, k) < 0 implies d[i].0 != k by {
            if i > 0 {
                assert(d.drop_first()[i - 1] == d[i]);
            }
        }
        assert forall|i: int| 0 <= i < key_index(d, k) && key_index(d, k) >= 0 implies d[i].0
            != k by {
            if i > 0 {
                assert(d.drop_first()[i - 1] == d[i]);
            }
        }
    }
}

/// If the first `n` entries miss `k` and entry `n` carries `k`, then `n` is
/// the index of `k`.
pub proof fn lemma_key_index_found(d: Seq<(Seq<char>, Val)>, k: Seq<char>, n: int)
    requires
        0 <= n < d.len(),
        d[n].0 == k,
        forall|i: int| 0 <= i < n ==> d[i].0 != k,
    ensures
        key_index(d, k) == n,
    decreases d.len(),
{
    if n > 0 {
        assert(d[0].0 != k);
        assert forall|i: int| 0 <= i < n - 1 implies d.drop_first()[i].0 != k by {
            assert(d.drop_first()[i] == d[i + 1]);
        }
        assert(d.drop_first()[n - 1] == d[n]);
        lemma_key_index_found(d.drop_first(), k, n - 1);
    }
}

/// If no entry carries `k`, the index of `k` is `-1`.
pub proof fn lemma_key_index_missing(d: Seq<(Seq<char>, Val)>, k: Seq<char>)
    requires
        forall|i: int| 0 <= i < d.len() ==> d[i].0 != k,
    ensures
        key_index(d, k) == -1,
    decreases d.len(),
{
    if d.len() > 0 {
        assert forall|i: int| 0 <= i < d.drop_first().len() implies d.drop_first()[i].0 != k by {
            assert(d.drop_first()[i] == d[i + 1]);
        }
        lemma_key_index_missing(d.drop_first(), k);
    }
}

/// Looking up the key just inserted yields the inserted value.
pub proof fn lemma_lookup_insert_same(d: Seq<(Seq<char>, Val)>, k: Seq<char>, v: Val)
    ensures
        dlookup(dinsert(d, k, v), k) == Some(v),
{
    lemma_key_index_range(d, k);
    let i = key_index(d, k);
    if i >= 0 {
        let d2 = d.update(i, (k, v));
        lemma_key_index_found(d2, k, i);
    } else {
        let d2 = d.push((k, v));
        lemma_key_index_found(d2, k, d.len() as int);
    }
}

/// Inserting under one key leaves every other key's binding alone.
pub proof fn lemma_lookup_insert_other(
    d: Seq<(Seq<char>, Val)>,
    k: Seq<char>,
    v: Val,
    k2: Seq<char>,
)
    requires
        k2 != k,
    ensures
        dlookup(dinsert(d, k, v), k2) == dlookup(d, k2),
{
    lemma_key_index_range(d, k);
    lemma_key_index_range(d, k2);
    let i = key_index(d, k);
    let j = key_index(d, k2);
    let d2 = dinsert(d, k, v);
    if j >= 0 {
        assert(d2[j].0 == k2);
        assert forall|m: int| 0 <= m < j implies d2[m].0 != k2 by {}
        lemma_key_index_found(d2, k2, j);
        assert(d2[j].1 == d[j].1);
    } else {
        assert forall|m: int| 0 <= m < d2.len() implies d2[m].0 != k2 by {}
        lemma_key_index_missing(d2, k2);
    }
}

/// Re-inserting a key's present binding leaves the document unchanged.
pub proof fn lemma_insert_same_value(d: Seq<(Seq<char>, Val)>, k: Seq<char>, v: Val)
    requires
        dlookup(d, k) == Some(v),
    ensures
        dinsert(d, k, v) == d,
{
    lemma_key_index_range(d, k);
    let i = key_index(d, k);
    assert(d[i] == (k, v));
    assert(dinsert(d, k, v) =~= d);
}

/// Index of the first entry of a nested mapping bound to `k`, or `-1`.
pub open spec fn mkey_index(m: Seq<(Seq<char>, ConfigValue)>, k: Seq<char>) -> int
    decreases m.len(),
{
    if m.len() == 0 {
        -1
    } else if m[0].0 == k {
        0
    } else {
        let r = mkey_index(m.drop_first(), k);
        if r < 0 {
            -1
        } else {
            1 + r
        }
    }
}

/// The value a nested mapping binds to `k`, if any.
pub open spec fn mlookup(m: Seq<(Seq<char>, ConfigValue)>, k: Seq<char>) -> Option<ConfigValue> {
    let i = mkey_index(m, k);
    if i >= 0 {
        Some(m[i].1)
    } else {
        None
    }
}

/// Two key/value sequences with the same keys find a key at the same
/// index.
pub proof fn lemma_key_index_aligned(
    a: Seq<(Seq<char>, Val)>,
    b: Seq<(Seq<char>, ConfigValue)>,
    k: Seq<char>,
)
    requires
        a.len() == b.len(),
        forall|i: int| 0 <= i < a.len() ==> a[i].0 == b[i].0,
    ensures
        key_index(a, k) == mkey_index(b, k),
    decreases a.len(),
{
    if a.len() > 0 && a[0].0 != k {
        assert forall|i: int| 0 <= i < a.drop_first().len() implies a.drop_first()[i].0
            == b.drop_first()[i].0 by {
            assert(a.drop_first()[i] == a[i + 1] && b.drop_first()[i] == b[i + 1]);
        }
        lemma_key_index_aligned(a.drop_first(), b.drop_first(), k);
    }
}

/// Applying a patch: each of its entries upserted, first to last.
pub open spec fn patch_spec(d: Seq<(Seq<char>, Val)>, p: Seq<(Seq<char>, Val)>) -> Seq<
    (Seq<char>, Val),
>
    decreases p.len(),
{
    if p.len() == 0 {
        d
    } else {
        patch_spec(dinsert(d, p[0].0, p[0].1), p.drop_first())
    }
}

/// A key that no patch entry names keeps its binding.
pub proof fn lemma_patch_untouched(
    d: Seq<(Seq<char>, Val)>,
    p: Seq<(Seq<char>, Val)>,
    k: Seq<char>,
)
    requires
        forall|i: int| 0 <= i < p.len() ==> p[i].0 != k,
    ensures
        dlookup(patch_spec(d, p), k) == dlookup(d, k),
    decreases p.len(),
{
    if p.len() > 0 {
        lemma_lookup_insert_other(d, p[0].0, p[0].1, k);
        assert forall|i: int| 0 <= i < p.drop_first().len() implies p.drop_first()[i].0 != k by {
            assert(p.drop_first()[i] == p[i + 1]);
        }
        lemma_patch_untouched(dinsert(d, p[0].0, p[0].1), p.drop_first(), k);
    }
}

/// A key the patch names ends bound to the patch's last value for it.
pub proof fn lemma_patch_listed(
    d: Seq<(Seq<char>, Val)>,
    p: Seq<(Seq<char>, Val)>,
    i: int,
)
    requires
        0 <= i < p.len(),
        forall|j: int| i < j < p.len() ==> p[j].0 != p[i].0,
    ensures
        dlookup(patch_spec(d, p), p[i].0) == Some(p[i].1),
    decreases p.len(),
{
    let d1 = dinsert(d, p[0].0, p[0].1);
    if i == 0 {
        lemma_lookup_insert_same(d, p[0].0, p[0].1);
        assert forall|j: int| 0 <= j < p.drop_first().len() implies p.drop_first()[j].0
            != p[0].0 by {
            assert(p.drop_first()[j] == p[j + 1]);
        }
        lemma_patch_untouched(d1, p.drop_first(), p[0].0);
    } else {
        assert(p.drop_first()[i - 1] == p[i]);
        assert forall|j: int| i - 1 < j < p.drop_first().len() implies #[trigger] p.drop_first()[j].0 != p.drop_first()[i - 1].0 by {
            assert(p.drop_first()[j] == p[j + 1]);
        }
        lemma_patch_listed(d1, p.drop_first(), i - 1);
    }
}

/// Patching preserves key uniqueness.
pub proof fn lemma_patch_wf(d: Seq<(Seq<char>, Val)>, p: Seq<(Seq<char>, Val)>)
    requires
        doc_wf(d),
    ensures
        doc_wf(patch_spec(d, p)),
    decreases p.len(),
{
    if p.len() > 0 {
        lemma_insert_wf(d, p[0].0, p[0].1);
        lemma_patch_wf(dinsert(d, p[0].0, p[0].1), p.drop_first());
    }
}

/// Insertion preserves key uniqueness.
pub proof fn lemma_insert_wf(d: Seq<(Seq<char>, Val)>, k: Seq<char>, v: Val)
    requires
        doc_wf(d),
    ensures
        doc_wf(dinsert(d, k, v)),
{
    lemma_key_index_range(d, k);
    let i = key_index(d, k);
    if i >= 0 {
        let d2 = d.update(i, (k, v));
        assert forall|a: int, b: int| 0 <= a < b < d2.len() implies d2[a].0 != d2[b].0 by {
            assert(d2[a].0 == d[a].0 && d2[b].0 == d[b].0);
        }
    } else {
        let d2 = d.push((k, v));
        assert forall|a: int, b: int| 0 <= a < b < d2.len() implies d2[a].0 != d2[b].0 by {
            if b == d.len() {
                assert(d2[a].0 == d[a].0);
            }
        }
    }
}

impl ConfigDoc {
    /// The empty document.
    pub fn new() -> (r: ConfigDoc)
        ensures
            r@ == Seq::<(Seq<char>, Val)>::empty(),
    {
        let r = ConfigDoc { entries: Vec::new() };
        proof {
            assert(r@ =~= Seq::<(Seq<char>, Val)>::empty());
        }
        r
    }

    /// Number of entries.
    pub fn len(&self) -> (n: usize)
        ensures
            n == self@.len(),
    {
        self.entries.len()
    }

    /// The value bound to `key`, if any.
    pub fn get(&self, key: &str) -> (r: Option<&ConfigValue>)
        ensures
            match r {
                Some(v) => dlookup(self@, key@) == Some(val_view(*v)),
                None => dlookup(self@, key@) is None,
            },
    {
        let n = self.entries.len();
        let mut i: usize = 0;
        while i < n
            invariant
                n == self.entries.len(),
                0 <= i <= n,
                forall|j: int| 0 <= j < i ==> self@[j].0 != key@,
            decreases n - i,
        {
            if str_eq(self.entries[i].0.as_str(), key) {
                proof {
                    lemma_key_index_found(self@, key@, i as int);
                }
                return Some(&self.entries[i].1);
            }
            i += 1;
        }
        proof {
            lemma_key_index_missing(self@, key@);
        }
        None
    }

    /// Key-wise upsert: overwrite when present, append otherwise.
    pub fn insert(&mut self, key: String, value: ConfigValue)
        ensures
            final(self)@ == dinsert(old(self)@, key@, val_view(value)),
            doc_wf(old(self)@) ==> doc_wf(final(self)@),
    {
        let n = self.entries.len();
        let mut i: usize = 0;
        while i < n
            invariant
                n == self.entries.len(),
                0 <= i <= n,
                *self == *old(self),
                forall|j: int| 0 <= j < i ==> self@[j].0 != key@,
            decreases n - i,
        {
            if str_eq(self.entries[i].0.as_str(), key.as_str()) {
                proof {
                    lemma_key_index_found(self@, key@, i as int);
                }
                self.entries.set(i, (key, value));
                proof {
                    assert(self@ =~= dinsert(old(self)@, key@, val_view(value)));
                    if doc_wf(old(self)@) {
                        lemma_insert_wf(old(self)@, key@, val_view(value));
                    }
                }
                return ;
            }
            i += 1;
        }
        proof {
            lemma_key_index_missing(self@, key@);
        }
        self.entries.push((key, value));
        proof {
            assert(self@ =~= dinsert(old(self)@, key@, val_view(value)));
            if doc_wf(old(self)@) {
                lemma_insert_wf(old(self)@, key@, val_view(value));
            }
        }
    }

    /// Whether the document's keys are unique.
    pub fn check_wf(&self) -> (r: bool)
        ensures
            r == doc_wf(self@),
    {
        let n = self.entries.len();
        let mut i: usize = 0;
        while i < n
            invariant
                n == self.entries.len(),
                0 <= i <= n,
                forall|a: int, b: int| 0 <= a < b < i ==> self@[a].0 != self@[b].0,
            decreases n - i,
        {
            let mut j: usize = 0;
            while j < i
                invariant
                    n == self.entries.len(),
                    0 <= j <= i < n,
                    forall|b: int| 0 <= b < j ==> self@[b].0 != self@[i as int].0,
                decreases i - j,
            {
                if str_eq(self.entries[j].0.as_str(), self.entries[i].0.as_str()) {
                    proof {
                        assert(self@[j as int].0 == self@[i as int].0);
                    }
                    return false;
                }
                j += 1;
            }
            i += 1;
        }
        true
    }
}

/// Character-wise string equality, in terms of the views.
pub fn str_eq(a: &str, b: &str) -> (r: bool)
    ensures
        r == (a@ == b@),
{
    let la = a.unicode_len();
    let lb = b.unicode_len();
    if la != lb {
        proof {
            assert(a@ != b@);
        }
        return false;
    }
    let mut i: usize = 0;
    while i < la
        invariant
            la == a@.len(),
            lb == b@.len(),
            la == lb,
            0 <= i <= la,
            forall|j: int| 0 <= j < i ==> a@[j] == b@[j],
        decreases la - i,
    {
        if a.get_char(i) != b.get_char(i) {
            return false;
        }
        i += 1;
    }
    proof {
        assert(a@ =~= b@);
    }
    true
}

} // verus!
