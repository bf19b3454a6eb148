//! The values of a PSB tree and the insertion-ordered dictionary that holds
//! its named members.

use vstd::prelude::*;

verus! {

/// A binary blob of the PSB file: its index and where its bytes are.
#[derive(Clone, Copy, Debug)]
pub struct Binary {
    pub index: u64,
    pub offset: u64,
    pub size: u64,
}

/// A value of the PSB tree. Floating-point numbers are kept as the bits
/// that the file holds: `F32` for a 32-bit one, `F64` for a 64-bit one.
pub enum Val {
    Null,
    Bool(bool),
    Int(i64),
    F32(u32),
    F64(u64),
    Str(String),
    Bin(Binary),
    List(Vec<Val>),
    Dict(Dict),
}

/// Insertion-ordered dictionary with Python semantics: a repeated key keeps
/// its first position and takes the last value.
pub struct Dict {
    pub items: Vec<(String, Val)>,
}

/// What a value is, with texts as character sequences.
pub enum ValV {
    Null,
    Bool(bool),
    Int(i64),
    F32(u32),
    F64(u64),
    Str(Seq<char>),
    Bin(Binary),
    List(Seq<ValV>),
    Dict(Seq<(Seq<char>, ValV)>),
}

pub open spec fn val_view(v: Val) -> ValV
    decreases v,
{
    match v {
        Val::Null => ValV::Null,
        Val::Bool(b) => ValV::Bool(b),
        Val::Int(i) => ValV::Int(i),
        Val::F32(b) => ValV::F32(b),
        Val::F64(b) => ValV::F64(b),
        Val::Str(s) => ValV::Str(s@),
        Val::Bin(b) => ValV::Bin(b),
        Val::List(l) => ValV::List(vals_view(l@)),
        Val::Dict(d) => ValV::Dict(items_view(d.items@)),
    }
}

pub open spec fn vals_view(s: Seq<Val>) -> Seq<ValV>
    decreases s,
{
    if s.len() == 0 {
        seq![]
    } else {
        vals_view(s.drop_last()).push(val_view(s.last()))
    }
}

pub open spec fn items_view(s: Seq<(String, Val)>) -> Seq<(Seq<char>, ValV)>
    decreases s,
{
    if s.len() == 0 {
        seq![]
    } else {
        items_view(s.drop_last()).push((s.last().0@, val_view(s.last().1)))
    }
}


pub proof fn lemma_items_view(s: Seq<(String, Val)>)
    ensures
        items_view(s).len() == s.len(),
        forall|i: int|
            0 <= i < s.len() ==> #[trigger] items_view(s)[i] == (s[i].0@, val_view(s[i].1)),
    decreases s.len(),
{
    if s.len() > 0 {
        lemma_items_view(s.drop_last());
    }
}

pub proof fn lemma_vals_view(s: Seq<Val>)
    ensures
        vals_view(s).len() == s.len(),
        forall|i: int| 0 <= i < s.len() ==> #[trigger] vals_view(s)[i] == val_view(s[i]),
    decreases s.len(),
{
    if s.len() > 0 {
        lemma_vals_view(s.drop_last());
    }
}

/// The position of the first entry with key `k` from `i` on, or -1.
pub open spec fn key_pos(items: Seq<(Seq<char>, ValV)>, k: Seq<char>, i: int) -> int
    decreases items.len() - i,
{
    if i < 0 || i >= items.len() {
        -1
    } else if items[i].0 == k {
        i
    } else {
        key_pos(items, k, i + 1)
    }
}

/// d.get(k)
pub open spec fn dict_get(items: Seq<(Seq<char>, ValV)>, k: Seq<char>) -> Option<ValV> {
    let i = key_pos(items, k, 0);
    if i < 0 {
        None
    } else {
        Some(items[i].1)
    }
}

/// d[k] = v: an existing key keeps its position and takes the new value,
/// a new key goes to the end.
pub open spec fn dict_insert(items: Seq<(Seq<char>, ValV)>, k: Seq<char>, v: ValV) -> Seq<(Seq<char>, ValV)> {
    let i = key_pos(items, k, 0);
    if i < 0 {
        items.push((k, v))
    } else {
        items.update(i, (k, v))
    }
}

pub proof fn lemma_key_pos(items: Seq<(Seq<char>, ValV)>, k: Seq<char>, i: int)
    requires
        0 <= i,
    ensures
        key_pos(items, k, i) == -1 || (i <= key_pos(items, k, i) < items.len() && items[key_pos(items, k, i)].0 == k),
        key_pos(items, k, i) == -1 ==> forall|j: int| i <= j < items.len() ==> items[j].0 != k,
        key_pos(items, k, i) != -1 ==> forall|j: int| i <= j < key_pos(items, k, i) ==> items[j].0 != k,
    decreases items.len() - i,
{
    if i < items.len() && items[i].0 != k {
        lemma_key_pos(items, k, i + 1);
    }
}

/// `key_pos` is the first index holding the key.
pub proof fn lemma_key_pos_char(items: Seq<(Seq<char>, ValV)>, k: Seq<char>, p: int)
    requires
        p == -1 ==> forall|j: int| 0 <= j < items.len() ==> items[j].0 != k,
        p != -1 ==> 0 <= p < items.len() && items[p].0 == k && forall|j: int| 0 <= j < p ==> items[j].0 != k,
    ensures
        key_pos(items, k, 0) == p,
{
    lemma_key_pos(items, k, 0);
    let q = key_pos(items, k, 0);
    if q != -1 && p != -1 {
        if q < p {
            assert(items[q].0 != k);
        } else if p < q {
            assert(items[p].0 != k);
        }
    } else if q != -1 {
        assert(items[q].0 != k);
    } else if p != -1 {
        assert(items[p].0 != k);
    }
}

/// Reading a key after writing it gives the value written.
pub proof fn lemma_dict_get_insert_same(items: Seq<(Seq<char>, ValV)>, k: Seq<char>, v: ValV)
    ensures
        dict_get(dict_insert(items, k, v), k) == Some(v),
{
    lemma_key_pos(items, k, 0);
    let i = key_pos(items, k, 0);
    let n = dict_insert(items, k, v);
    if i < 0 {
        lemma_key_pos_char(n, k, items.len() as int);
    } else {
        lemma_key_pos_char(n, k, i);
    }
}

/// Writing a key leaves what the other keys read unchanged.
pub proof fn lemma_dict_get_insert_other(
    items: Seq<(Seq<char>, ValV)>,
    k: Seq<char>,
    v: ValV,
    k2: Seq<char>,
)
    requires
        k2 != k,
    ensures
        dict_get(dict_insert(items, k, v), k2) == dict_get(items, k2),
{
    lemma_key_pos(items, k, 0);
    lemma_key_pos(items, k2, 0);
    let n = dict_insert(items, k, v);
    lemma_key_pos_char(n, k2, key_pos(items, k2, 0));
}

/// Writing a key that the dictionary holds keeps every key where it was;
/// writing a new one appends it after all the others.
pub proof fn lemma_dict_insert_order(items: Seq<(Seq<char>, ValV)>, k: Seq<char>, v: ValV)
    ensures
        dict_get(items, k) is Some ==> dict_insert(items, k, v).len() == items.len() && forall|j: int|
            0 <= j < items.len() ==> #[trigger] dict_insert(items, k, v)[j].0 == items[j].0,
        dict_get(items, k) is None ==> dict_insert(items, k, v) == items.push((k, v)),
{
    lemma_key_pos(items, k, 0);
}

impl Dict {
    pub open spec fn view(&self) -> Seq<(Seq<char>, ValV)> {
        items_view(self.items@)
    }

    /// An empty dictionary.
    pub fn new() -> (d: Dict)
        ensures
            d.view() == Seq::<(Seq<char>, ValV)>::empty(),
    {
        Dict { items: Vec::new() }
    }

    /// d[key] = val
    pub fn insert(&mut self, key: String, val: Val)
        ensures
            final(self).view() == dict_insert(old(self).view(), key@, val_view(val)),
    {
        let ghost old_items = self.items@;
        proof {
            lemma_items_view(old_items);
        }
        let mut i: usize = 0;
        while i < self.items.len()
            invariant
                self.items@ == old_items,
                old(self).items@ == old_items,
                items_view(old_items).len() == old_items.len(),
                forall|j: int| 0 <= j < i ==> #[trigger] old_items[j].0@ != key@,
            decreases old_items.len() - i,
        {
            if self.items[i].0 == key {
                let ghost kv = key@;
                let ghost vv = val_view(val);
                self.items.set(i, (key, val));
                proof {
                    lemma_items_view(self.items@);
                    lemma_items_view(old_items);
                    lemma_key_pos_char(items_view(old_items), kv, i as int);
                    assert(items_view(self.items@) =~= items_view(old_items).update(i as int, (kv, vv)));
                }
                return;
            }
            i += 1;
        }
        let ghost kv = key@;
        let ghost vv = val_view(val);
        self.items.push((key, val));
        proof {
            lemma_items_view(self.items@);
            lemma_items_view(old_items);
            lemma_key_pos_char(items_view(old_items), kv, -1);
            assert(items_view(self.items@) =~= items_view(old_items).push((kv, vv)));
        }
    }

    /// d.get(key)
    pub fn get(&self, key: &str) -> (r: Option<&Val>)
        ensures
            match dict_get(self.view(), key@) {
                Some(v) => r matches Some(x) && val_view(*x) == v,
                None => r is None,
            },
    {
        let k = String::from_str(key);
        proof {
            lemma_items_view(self.items@);
        }
        let mut i: usize = 0;
        while i < self.items.len()
            invariant
                k@ == key@,
                items_view(self.items@).len() == self.items@.len(),
                forall|j: int| 0 <= j < self.items@.len() ==> #[trigger] items_view(self.items@)[j] == (self.items@[j].0@, val_view(self.items@[j].1)),
                forall|j: int| 0 <= j < i ==> #[trigger] self.items@[j].0@ != key@,
            decreases self.items@.len() - i,
        {
            if self.items[i].0 == k {
                proof {
                    lemma_key_pos_char(self.view(), key@, i as int);
                }
                return Some(&self.items[i].1);
            }
            i += 1;
        }
        proof {
            lemma_key_pos_char(self.view(), key@, -1);
        }
        None
    }

    /// The entries, in order.
    pub fn iter(&self) -> (r: &Vec<(String, Val)>)
        ensures
            items_view(r@) == self.view(),
    {
        &self.items
    }

    /// Number of entries.
    pub fn len(&self) -> (n: usize)
        ensures
            n == self.view().len(),
    {
        proof {
            lemma_items_view(self.items@);
        }
        self.items.len()
    }

    /// Whether the dictionary has no entries.
    pub fn is_empty(&self) -> (b: bool)
        ensures
            b == (self.view().len() == 0),
    {
        proof {
            lemma_items_view(self.items@);
        }
        self.items.len() == 0
    }
}

} // verus!
