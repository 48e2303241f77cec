//! The field store: outer key to (field name to byte value).
use vstd::prelude::*;
use crate::assoc::{
    assoc_view, find_key, has_key, keys_unique, lemma_assoc_len, lemma_view_at, lemma_view_char,
    lemma_view_empty, lemma_view_push, lemma_view_remove, lemma_view_update,
};
use crate::slot::{slot, slot_of};
use vstd::utf8::encode_utf8;

verus! {

/// The fields of one outer key: field name to value.
pub type FieldMap = Map<Seq<char>, Seq<u8>>;

/// The whole store: outer key to its fields.
pub type StoreMap = Map<Seq<char>, FieldMap>;

/// The fields that `m` holds under `key`, or none.
pub open spec fn fields_of(m: StoreMap, key: Seq<char>) -> FieldMap {
    if m.contains_key(key) {
        m[key]
    } else {
        Map::empty()
    }
}

/// `m` with `value` written under `key` and `field`.
pub open spec fn store_insert(m: StoreMap, key: Seq<char>, field: Seq<char>, value: Seq<u8>) -> StoreMap {
    m.insert(key, fields_of(m, key).insert(field, value))
}

/// `m` holds a value under `key` and `field`.
pub open spec fn store_has(m: StoreMap, key: Seq<char>, field: Seq<char>) -> bool {
    m.contains_key(key) && m[key].contains_key(field)
}

/// `m` without the value under `key` and `field`; an outer key whose last
/// field goes is removed with it.
pub open spec fn store_remove(m: StoreMap, key: Seq<char>, field: Seq<char>) -> StoreMap {
    if !store_has(m, key, field) {
        m
    } else if m[key].remove(field).dom() == Set::<Seq<char>>::empty() {
        m.remove(key)
    } else {
        m.insert(key, m[key].remove(field))
    }
}

/// The value that `m` holds under `key` and `field`, if any.
pub open spec fn store_get(m: StoreMap, key: Seq<char>, field: Seq<char>) -> Option<Seq<u8>> {
    if store_has(m, key, field) {
        Some(m[key][field])
    } else {
        None
    }
}

/// The slot of outer key `k` lies in `[start, end]`.
pub open spec fn in_slot_range(k: Seq<char>, start: u32, end: u32) -> bool {
    start <= slot_of(k) && slot_of(k) <= end
}

/// The part of `m` whose outer keys have their slot in `[start, end]`.
pub open spec fn keys_in_range(m: StoreMap, start: u32, end: u32) -> StoreMap {
    Map::new(|k: Seq<char>| m.contains_key(k) && in_slot_range(k, start, end), |k: Seq<char>| m[k])
}

/// The part of `m` whose outer keys have their slot outside `[start, end]`.
pub open spec fn keys_outside_range(m: StoreMap, start: u32, end: u32) -> StoreMap {
    Map::new(|k: Seq<char>| m.contains_key(k) && !in_slot_range(k, start, end), |k: Seq<char>| m[k])
}

/// `b` written over `a` field by field: where both hold a value under the
/// same outer key and field, the one of `b` wins.
pub open spec fn store_merge(a: StoreMap, b: StoreMap) -> StoreMap {
    Map::new(
        |k: Seq<char>| a.contains_key(k) || b.contains_key(k),
        |k: Seq<char>|
            if b.contains_key(k) {
                fields_of(a, k).union_prefer_right(b[k])
            } else {
                a[k]
            },
    )
}

/// `x` held in a `usize`, or `usize::MAX` when it does not fit.
pub open spec fn capped(x: nat) -> usize {
    if x > usize::MAX {
        usize::MAX
    } else {
        x as usize
    }
}

/// The length in bytes of the UTF-8 form of `k`, as `str::len` gives it.
pub open spec fn utf8_len(k: Seq<char>) -> nat {
    encode_utf8(k).len() as usize as nat
}

/// Estimated bytes taken by the fields `f`: per field, a string header of
/// `string_size` and the name's bytes, a vector header of `vec_size` and
/// the value's bytes.
pub open spec fn fields_size(f: Seq<(String, Vec<u8>)>, string_size: nat, vec_size: nat) -> nat
    decreases f.len(),
{
    if f.len() == 0 {
        0
    } else {
        fields_size(f.drop_last(), string_size, vec_size) + string_size + utf8_len(f.last().0@) + vec_size
            + f.last().1@.len()
    }
}

/// Estimated bytes taken by the outer entry `e`: a string header and the
/// key's bytes, a header of `field_size` for its fields, and the fields.
pub open spec fn entry_size(e: (String, Field), string_size: nat, field_size: nat, vec_size: nat) -> nat {
    string_size + utf8_len(e.0@) + field_size + fields_size(e.1.field@, string_size, vec_size)
}

/// Estimated bytes taken by the outer entries `h`.
pub open spec fn store_size(h: Seq<(String, Field)>, string_size: nat, field_size: nat, vec_size: nat) -> nat
    decreases h.len(),
{
    if h.len() == 0 {
        0
    } else {
        store_size(h.drop_last(), string_size, field_size, vec_size) + entry_size(
            h.last(),
            string_size,
            field_size,
            vec_size,
        )
    }
}

/// Merging one more outer key into a merge.
proof fn lemma_merge_step(a: StoreMap, p: StoreMap, k: Seq<char>, f: FieldMap)
    requires
        !p.contains_key(k),
    ensures
        fields_of(store_merge(a, p), k) == fields_of(a, k),
        store_merge(a, p.insert(k, f)) == store_merge(a, p).insert(k, fields_of(a, k).union_prefer_right(f)),
{
    assert(store_merge(a, p.insert(k, f)) =~= store_merge(a, p).insert(k, fields_of(a, k).union_prefer_right(f)));
}

/// An estimate of the memory that a store takes, given the size of a
/// string header, of the header of a set of fields and of a vector header
/// on the target; `usize::MAX` when the estimate does not fit.
pub fn hset_size(hash_set: &HashSet, string_size: usize, field_size: usize, vec_size: usize) -> (r: usize)
    ensures
        r == capped(store_size(hash_set.hset@, string_size as nat, field_size as nat, vec_size as nat)),
{
    let ghost h = hash_set.hset@;
    let mut size: usize = 0;
    let mut i: usize = 0;
    while i < hash_set.hset.len()
        invariant
            0 <= i <= h.len(),
            h == hash_set.hset@,
            size == capped(store_size(h.subrange(0, i as int), string_size as nat, field_size as nat, vec_size as nat)),
        decreases h.len() - i,
    {
        let key = &hash_set.hset[i].0;
        let fields = &hash_set.hset[i].1;
        let ghost fs = fields.field@;
        let key_str = key.as_str();
        let key_len = key_str.len();
        assert(key_len == utf8_len(key@));
        let mut entry: usize = string_size.saturating_add(key_len).saturating_add(field_size);
        let mut j: usize = 0;
        proof {
            assert(fs.subrange(0, 0) =~= Seq::<(String, Vec<u8>)>::empty());
        }
        while j < fields.field.len()
            invariant
                0 <= j <= fs.len(),
                fs == fields.field@,
                entry == capped(
                    (string_size + utf8_len(key@) + field_size) as nat + fields_size(
                        fs.subrange(0, j as int),
                        string_size as nat,
                        vec_size as nat,
                    ),
                ),
            decreases fs.len() - j,
        {
            let name_str = fields.field[j].0.as_str();
            let name_len = name_str.len();
            assert(name_len == utf8_len(fs[j as int].0@));
            let value_len = fields.field[j].1.len();
            entry = entry.saturating_add(string_size).saturating_add(name_len).saturating_add(vec_size).saturating_add(
                value_len,
            );
            proof {
                assert(fs.subrange(0, j + 1).drop_last() =~= fs.subrange(0, j as int));
            }
            j = j + 1;
        }
        proof {
            assert(fs.subrange(0, fs.len() as int) =~= fs);
            assert(h.subrange(0, i + 1).drop_last() =~= h.subrange(0, i as int));
        }
        size = size.saturating_add(entry);
        i = i + 1;
    }
    proof {
        assert(h.subrange(0, h.len() as int) =~= h);
    }
    size
}

/// The fields of one outer key.
#[derive(Clone, Debug)]
pub struct Field {
    pub field: Vec<(String, Vec<u8>)>,
}

impl View for Field {
    type V = FieldMap;

    open spec fn view(&self) -> FieldMap {
        assoc_view(self.field@)
    }
}

impl Field {
    /// No field name occurs twice.
    pub open spec fn wf(&self) -> bool {
        keys_unique(self.field@)
    }

    /// A set of fields with none in it.
    pub fn new() -> (r: Field)
        ensures
            r.wf(),
            r@ == FieldMap::empty(),
    {
        let r = Field { field: Vec::new() };
        proof {
            lemma_view_empty(r.field@);
        }
        r
    }

    /// Writes `value` under `name`, over any value already there.
    fn put(&mut self, name: String, value: Vec<u8>)
        requires
            old(self).wf(),
        ensures
            final(self).wf(),
            final(self)@ == old(self)@.insert(name@, value@),
            final(self).field@.len() > 0,
    {
        match find_key(&self.field, &name) {
            Some(i) => {
                proof {
                    lemma_view_update(self.field@, i as int, (name, value));
                }
                self.field[i] = (name, value);
            },
            None => {
                proof {
                    lemma_view_push(self.field@, (name, value));
                }
                self.field.push((name, value));
            },
        }
    }

    /// Removes the field `name`; reports whether it was there.
    fn take(&mut self, name: &String) -> (r: bool)
        requires
            old(self).wf(),
        ensures
            r == old(self)@.contains_key(name@),
            final(self).wf(),
            final(self)@ == old(self)@.remove(name@),
            !r ==> *final(self) == *old(self),
    {
        match find_key(&self.field, name) {
            Some(i) => {
                proof {
                    lemma_view_remove(self.field@, i as int);
                    lemma_view_at(self.field@, i as int);
                }
                self.field.remove(i);
                true
            },
            None => {
                assert(self@ =~= self@.remove(name@));
                false
            },
        }
    }

    /// The value under `name`, copied out.
    fn lookup(&self, name: &String) -> (r: Option<Vec<u8>>)
        requires
            self.wf(),
        ensures
            match r {
                Some(v) => self@.contains_key(name@) && v@ == self@[name@],
                None => !self@.contains_key(name@),
            },
    {
        match find_key(&self.field, name) {
            Some(i) => {
                proof {
                    lemma_view_at(self.field@, i as int);
                }
                Some(vstd::slice::slice_to_vec(self.field[i].1.as_slice()))
            },
            None => None,
        }
    }

    /// The list of fields is empty exactly when the map is.
    proof fn lemma_empty(&self)
        requires
            self.wf(),
        ensures
            (self.field@.len() == 0) == (self@.dom() == Set::<Seq<char>>::empty()),
    {
        if self.field@.len() == 0 {
            lemma_view_empty(self.field@);
            assert(self@.dom() =~= Set::<Seq<char>>::empty());
        } else {
            lemma_view_at(self.field@, 0);
            assert(self@.dom().contains(self.field@[0].0@));
        }
    }
}

/// The field store: each outer key with its fields.
#[derive(Clone, Debug)]
pub struct HashSet {
    pub hset: Vec<(String, Field)>,
}

impl View for HashSet {
    type V = StoreMap;

    open spec fn view(&self) -> StoreMap {
        assoc_view(self.hset@)
    }
}

impl HashSet {
    /// No outer key occurs twice, each set of fields is well formed, and no
    /// outer key is kept without a field.
    pub open spec fn wf(&self) -> bool {
        &&& keys_unique(self.hset@)
        &&& forall|i: int| 0 <= i < self.hset@.len() ==> (#[trigger] self.hset@[i]).1.wf()
        &&& forall|i: int| 0 <= i < self.hset@.len() ==> (#[trigger] self.hset@[i]).1.field@.len() > 0
    }

    /// The empty store.
    pub fn new() -> (r: HashSet)
        ensures
            r.wf(),
            r@ == StoreMap::empty(),
    {
        let r = HashSet { hset: Vec::new() };
        proof {
            lemma_view_empty(r.hset@);
        }
        r
    }

    /// Writes `value` under `key` and `field`, creating the outer key if it
    /// is new. Always reports success.
    pub fn insert(&mut self, key: String, field: String, value: Vec<u8>) -> (r: bool)
        requires
            old(self).wf(),
        ensures
            r,
            final(self).wf(),
            final(self)@ == store_insert(old(self)@, key@, field@, value@),
    {
        match find_key(&self.hset, &key) {
            Some(i) => {
                proof {
                    lemma_view_at(self.hset@, i as int);
                }
                let ghost before = self.hset@;
                let mut entry = (String::new(), Field::new());
                std::mem::swap(&mut self.hset[i], &mut entry);
                entry.1.put(field, value);
                proof {
                    lemma_view_update(before, i as int, entry);
                }
                self.hset[i] = entry;
                assert(self.hset@ == before.update(i as int, entry));
            },
            None => {
                let mut fields = Field::new();
                fields.put(field, value);
                proof {
                    lemma_view_push(self.hset@, (key, fields));
                }
                self.hset.push((key, fields));
            },
        }
        true
    }

    /// Removes the outer key with all its fields; reports whether it was
    /// there.
    pub fn remove_key(&mut self, key: String) -> (r: bool)
        requires
            old(self).wf(),
        ensures
            r == old(self)@.contains_key(key@),
            final(self).wf(),
            final(self)@ == old(self)@.remove(key@),
    {
        match find_key(&self.hset, &key) {
            Some(i) => {
                proof {
                    lemma_view_remove(self.hset@, i as int);
                    lemma_view_at(self.hset@, i as int);
                }
                let ghost before = self.hset@;
                self.hset.remove(i);
                assert forall|j: int| 0 <= j < self.hset@.len() implies (#[trigger] self.hset@[j]).1.wf()
                    && self.hset@[j].1.field@.len() > 0 by {
                    if j < i {
                        assert(self.hset@[j] == before[j]);
                    } else {
                        assert(self.hset@[j] == before[j + 1]);
                    }
                }
                true
            },
            None => {
                assert(self@ =~= self@.remove(key@));
                false
            },
        }
    }

    /// Removes the value under `key` and `field`, and the outer key with it
    /// when that was its last field; reports whether the value was there.
    pub fn remove_field(&mut self, key: String, field: String) -> (r: bool)
        requires
            old(self).wf(),
        ensures
            r == store_has(old(self)@, key@, field@),
            final(self).wf(),
            final(self)@ == store_remove(old(self)@, key@, field@),
    {
        match find_key(&self.hset, &key) {
            Some(i) => {
                proof {
                    lemma_view_at(self.hset@, i as int);
                }
                let ghost before = self.hset@;
                let mut entry = (String::new(), Field::new());
                std::mem::swap(&mut self.hset[i], &mut entry);
                assert(entry == before[i as int]);
                let found = entry.1.take(&field);
                if !found {
                    self.hset[i] = entry;
                    assert(self.hset@ =~= before);
                    assert(self@ == store_remove(old(self)@, key@, field@));
                    return false;
                }
                proof {
                    entry.1.lemma_empty();
                }
                if entry.1.field.len() == 0 {
                    self.hset[i] = entry;
                    assert(self.hset@ =~= before.update(i as int, entry));
                    proof {
                        lemma_view_remove(before.update(i as int, entry), i as int);
                        lemma_view_remove(before, i as int);
                    }
                    self.hset.remove(i);
                    assert(self.hset@ =~= before.remove(i as int));
                    assert forall|j: int| 0 <= j < self.hset@.len() implies (#[trigger] self.hset@[j]).1.wf()
                        && self.hset@[j].1.field@.len() > 0 by {
                        if j < i {
                            assert(self.hset@[j] == before[j]);
                        } else {
                            assert(self.hset@[j] == before[j + 1]);
                        }
                    }
                } else {
                    proof {
                        lemma_view_update(before, i as int, entry);
                    }
                    self.hset[i] = entry;
                    assert(self.hset@ == before.update(i as int, entry));
                }
                true
            },
            None => false,
        }
    }

    /// The fields of `key`, if it is there.
    pub fn get_key(&self, key: &String) -> (r: Option<&Field>)
        requires
            self.wf(),
        ensures
            match r {
                Some(f) => self@.contains_key(key@) && f@ == self@[key@] && f.wf(),
                None => !self@.contains_key(key@),
            },
    {
        match find_key(&self.hset, key) {
            Some(i) => {
                proof {
                    lemma_view_at(self.hset@, i as int);
                }
                Some(&self.hset[i].1)
            },
            None => None,
        }
    }

    /// The value under `key` and `field`, if any.
    pub fn get_field(&self, key: &String, field: &String) -> (r: Option<Vec<u8>>)
        requires
            self.wf(),
        ensures
            match r {
                Some(v) => store_get(self@, key@, field@) == Some(v@),
                None => store_get(self@, key@, field@) is None,
            },
    {
        match self.get_key(key) {
            Some(set) => set.lookup(field),
            None => None,
        }
    }

    /// The number of outer keys.
    pub fn len(&self) -> (r: usize)
        requires
            self.wf(),
        ensures
            r == self@.dom().len(),
    {
        proof {
            self.lemma_len();
        }
        self.hset.len()
    }

    /// The number of fields under `key` (zero when it is absent).
    pub fn field_len(&self, key: &String) -> (r: usize)
        requires
            self.wf(),
        ensures
            r == fields_of(self@, key@).dom().len(),
    {
        match self.get_key(key) {
            Some(v) => {
                proof {
                    lemma_assoc_len(v.field@);
                }
                v.field.len()
            },
            None => {
                assert(fields_of(self@, key@).dom() =~= Set::<Seq<char>>::empty());
                0
            },
        }
    }

    proof fn lemma_len(&self)
        requires
            self.wf(),
        ensures
            self@.dom().len() == self.hset@.len(),
    {
        lemma_assoc_len(self.hset@);
    }

    /// Moves out every outer key whose slot lies in `[start, end]`, with
    /// its fields; the rest stays.
    pub fn take_slot_range(&mut self, start: u32, end: u32) -> (moved: HashSet)
        requires
            old(self).wf(),
        ensures
            final(self).wf(),
            moved.wf(),
            final(self)@ == keys_outside_range(old(self)@, start, end),
            moved@ == keys_in_range(old(self)@, start, end),
    {
        let mut rest: Vec<(String, Field)> = Vec::new();
        std::mem::swap(&mut self.hset, &mut rest);
        let ghost s0 = rest@;
        let mut kept: Vec<(String, Field)> = Vec::new();
        let mut taken: Vec<(String, Field)> = Vec::new();
        let ghost mut kfrom: Seq<int> = Seq::empty();
        let ghost mut tfrom: Seq<int> = Seq::empty();
        proof {
            lemma_view_empty(kept@);
            lemma_view_empty(taken@);
        }
        while rest.len() > 0
            invariant
                rest@.len() <= s0.len(),
                rest@ =~= s0.subrange(0, rest@.len() as int),
                s0 == old(self).hset@,
                old(self).wf(),
                keys_unique(kept@),
                keys_unique(taken@),
                kfrom.len() == kept@.len(),
                tfrom.len() == taken@.len(),
                forall|i: int| 0 <= i < kept@.len() ==> rest@.len() <= #[trigger] kfrom[i] < s0.len()
                    && kept@[i] == s0[kfrom[i]] && !in_slot_range(s0[kfrom[i]].0@, start, end),
                forall|i: int| 0 <= i < taken@.len() ==> rest@.len() <= #[trigger] tfrom[i] < s0.len()
                    && taken@[i] == s0[tfrom[i]] && in_slot_range(s0[tfrom[i]].0@, start, end),
                forall|j: int| rest@.len() <= j < s0.len() && !in_slot_range(s0[j].0@, start, end)
                    ==> has_key(kept@, #[trigger] s0[j].0@),
                forall|j: int| rest@.len() <= j < s0.len() && in_slot_range(s0[j].0@, start, end)
                    ==> has_key(taken@, #[trigger] s0[j].0@),
            decreases rest@.len(),
        {
            let ghost n = rest@.len() - 1;
            assert(rest@[n] == s0[n]);
            let e = rest.pop().unwrap();
            let sl = slot(e.0.as_str());
            if start <= sl && sl <= end {
                assert(!has_key(taken@, e.0@)) by {
                    if has_key(taken@, e.0@) {
                        let i = choose|i: int| 0 <= i < taken@.len() && (#[trigger] taken@[i]).0@ == e.0@;
                        assert(tfrom[i] > n);
                    }
                }
                let ghost t0 = taken@;
                proof {
                    lemma_view_push(taken@, e);
                    tfrom = tfrom.push(n);
                }
                taken.push(e);
                assert forall|j: int| rest@.len() <= j < s0.len() && in_slot_range(s0[j].0@, start, end)
                    implies has_key(taken@, #[trigger] s0[j].0@) by {
                    if j == n {
                        assert(taken@[taken@.len() - 1] == s0[j]);
                    } else {
                        let i = choose|i: int| 0 <= i < t0.len() && (#[trigger] t0[i]).0@ == s0[j].0@;
                        assert(taken@[i] == t0[i]);
                    }
                }
                assert forall|i: int| 0 <= i < taken@.len() implies rest@.len() <= #[trigger] tfrom[i] < s0.len()
                    && taken@[i] == s0[tfrom[i]] && in_slot_range(s0[tfrom[i]].0@, start, end) by {
                    if i < t0.len() {
                        assert(taken@[i] == t0[i]);
                    }
                }
            } else {
                assert(!has_key(kept@, e.0@)) by {
                    if has_key(kept@, e.0@) {
                        let i = choose|i: int| 0 <= i < kept@.len() && (#[trigger] kept@[i]).0@ == e.0@;
                        assert(kfrom[i] > n);
                    }
                }
                let ghost t0 = kept@;
                proof {
                    lemma_view_push(kept@, e);
                    kfrom = kfrom.push(n);
                }
                kept.push(e);
                assert forall|j: int| rest@.len() <= j < s0.len() && !in_slot_range(s0[j].0@, start, end)
                    implies has_key(kept@, #[trigger] s0[j].0@) by {
                    if j == n {
                        assert(kept@[kept@.len() - 1] == s0[j]);
                    } else {
                        let i = choose|i: int| 0 <= i < t0.len() && (#[trigger] t0[i]).0@ == s0[j].0@;
                        assert(kept@[i] == t0[i]);
                    }
                }
                assert forall|i: int| 0 <= i < kept@.len() implies rest@.len() <= #[trigger] kfrom[i] < s0.len()
                    && kept@[i] == s0[kfrom[i]] && !in_slot_range(s0[kfrom[i]].0@, start, end) by {
                    if i < t0.len() {
                        assert(kept@[i] == t0[i]);
                    }
                }
            }
        }
        proof {
            Self::lemma_parts(s0, kept@, kfrom, start, end, false);
            Self::lemma_parts(s0, taken@, tfrom, start, end, true);
        }
        self.hset = kept;
        HashSet { hset: taken }
    }

    /// A duplicate-free selection of the entries of `s0`, holding exactly
    /// those on one side of `[start, end]`, stands for that side of its map.
    proof fn lemma_parts(
        s0: Seq<(String, Field)>,
        part: Seq<(String, Field)>,
        from: Seq<int>,
        start: u32,
        end: u32,
        inside: bool,
    )
        requires
            keys_unique(s0),
            forall|i: int| 0 <= i < s0.len() ==> (#[trigger] s0[i]).1.wf() && s0[i].1.field@.len() > 0,
            keys_unique(part),
            from.len() == part.len(),
            forall|i: int| 0 <= i < part.len() ==> 0 <= #[trigger] from[i] < s0.len()
                && part[i] == s0[from[i]] && in_slot_range(s0[from[i]].0@, start, end) == inside,
            forall|j: int| 0 <= j < s0.len() && in_slot_range(s0[j].0@, start, end) == inside
                ==> has_key(part, #[trigger] s0[j].0@),
        ensures
            forall|i: int| 0 <= i < part.len() ==> (#[trigger] part[i]).1.wf() && part[i].1.field@.len() > 0,
            inside ==> assoc_view(part) == keys_in_range(assoc_view(s0), start, end),
            !inside ==> assoc_view(part) == keys_outside_range(assoc_view(s0), start, end),
    {
        let m0 = assoc_view(s0);
        let m = if inside { keys_in_range(m0, start, end) } else { keys_outside_range(m0, start, end) };
        assert forall|i: int| 0 <= i < part.len() implies m.contains_key((#[trigger] part[i]).0@) && m[part[i].0@]
            == part[i].1@ && part[i].1.wf() && part[i].1.field@.len() > 0 by {
            assert(0 <= from[i] < s0.len());
            lemma_view_at(s0, from[i]);
        }
        assert forall|k: Seq<char>| m.contains_key(k) implies has_key(part, k) by {
            let j = choose|j: int| 0 <= j < s0.len() && (#[trigger] s0[j]).0@ == k;
        }
        lemma_view_char(part, m);
    }


    /// Writes every value of `batch` into this store, field by field; where
    /// both hold a value under the same outer key and field, the batch's wins.
    pub fn merge_from(&mut self, batch: &HashSet)
        requires
            old(self).wf(),
            batch.wf(),
        ensures
            final(self).wf(),
            final(self)@ == store_merge(old(self)@, batch@),
    {
        let ghost a0 = self@;
        let ghost bs = batch.hset@;
        let mut i: usize = 0;
        proof {
            lemma_view_empty(bs.subrange(0, 0));
            assert(store_merge(a0, assoc_view(bs.subrange(0, 0))) =~= a0);
        }
        while i < batch.hset.len()
            invariant
                0 <= i <= bs.len(),
                bs == batch.hset@,
                batch.wf(),
                self.wf(),
                self@ == store_merge(a0, assoc_view(bs.subrange(0, i as int))),
            decreases bs.len() - i,
        {
            let ghost cur0 = self@;
            let ghost prefix = bs.subrange(0, i as int);
            let key = &batch.hset[i].0;
            let fields = &batch.hset[i].1;
            let ghost fs = fields.field@;
            let mut j: usize = 0;
            while j < fields.field.len()
                invariant
                    0 <= j <= fs.len(),
                    fs == fields.field@,
                    fields.wf(),
                    self.wf(),
                    j == 0 ==> self@ == cur0,
                    j > 0 ==> self@ == cur0.insert(
                        key@,
                        fields_of(cur0, key@).union_prefer_right(assoc_view(fs.subrange(0, j as int))),
                    ),
                decreases fs.len() - j,
            {
                let ghost before = self@;
                let ghost sub = fs.subrange(0, j as int);
                proof {
                    assert(keys_unique(sub));
                    assert(!has_key(sub, fs[j as int].0@)) by {
                        if has_key(sub, fs[j as int].0@) {
                            let l = choose|l: int| 0 <= l < sub.len() && (#[trigger] sub[l]).0@ == fs[j as int].0@;
                            assert(sub[l] == fs[l]);
                        }
                    }
                    lemma_view_push(sub, fs[j as int]);
                    assert(fs.subrange(0, j + 1) =~= sub.push(fs[j as int]));
                }
                let name = fields.field[j].0.clone();
                let value = vstd::slice::slice_to_vec(fields.field[j].1.as_slice());
                self.insert(key.clone(), name, value);
                proof {
                    let base = fields_of(cur0, key@);
                    let fsub = assoc_view(sub);
                    assert(base.union_prefer_right(fsub.insert(fs[j as int].0@, fs[j as int].1@)) =~= base.union_prefer_right(
                        fsub,
                    ).insert(fs[j as int].0@, fs[j as int].1@));
                    if j == 0 {
                        assert(fsub =~= Map::<Seq<char>, Seq<u8>>::empty());
                        assert(base.union_prefer_right(fsub) =~= base);
                    }
                }
                j = j + 1;
            }
            proof {
                assert(fs.subrange(0, fs.len() as int) =~= fs);
                lemma_view_at(bs, i as int);
                assert(keys_unique(prefix));
                assert(!has_key(prefix, bs[i as int].0@)) by {
                    if has_key(prefix, bs[i as int].0@) {
                        let l = choose|l: int| 0 <= l < prefix.len() && (#[trigger] prefix[l]).0@ == bs[i as int].0@;
                        assert(prefix[l] == bs[l]);
                    }
                }
                lemma_view_push(prefix, bs[i as int]);
                assert(bs.subrange(0, i + 1) =~= prefix.push(bs[i as int]));
                lemma_merge_step(a0, assoc_view(prefix), key@, fields@);
            }
            i = i + 1;
        }
        proof {
            assert(bs.subrange(0, bs.len() as int) =~= bs);
        }
    }

}

} // verus!
