//! Presets: named sets of input-to-outputs mappings, one active at a time.

use vstd::prelude::*;

use vstd::string::StringExecFns;

use crate::output_settings::OutputSettings;
use crate::output_settings::same_output_settings;
use crate::utils::push_decimal;
use crate::utils::spec_dec_digits;

verus! {

/// Two output lists agree entry by entry.
pub open spec fn same_outputs_list(a: Seq<OutputSettings>, b: Seq<OutputSettings>) -> bool {
    a.len() == b.len() && forall|i: int|
        0 <= i < a.len() ==> same_output_settings(#[trigger] a[i], #[trigger] b[i])
}

/// The output targets of each input slot, keyed by the slot's index in the
/// input list. Backed by an ordered list of entries with pairwise distinct
/// keys; lookups take the first (hence only) entry with the key.
#[derive(Debug)]
pub struct Mapping {
    entries: Vec<(usize, Vec<OutputSettings>)>,
}

/// The first entry for `k`, walking the entry list in order.
pub open spec fn spec_assoc_get(s: Seq<(usize, Vec<OutputSettings>)>, k: usize) -> Option<
    Vec<OutputSettings>,
>
    decreases s.len(),
{
    if s.len() == 0 {
        None
    } else if s[0].0 == k {
        Some(s[0].1)
    } else {
        spec_assoc_get(s.drop_first(), k)
    }
}

/// Lookups fall through a concatenation: the left part answers if it holds
/// the key, else the right part does.
pub proof fn lemma_assoc_get_concat(
    s: Seq<(usize, Vec<OutputSettings>)>,
    t: Seq<(usize, Vec<OutputSettings>)>,
    k: usize,
)
    ensures
        spec_assoc_get(s + t, k) == match spec_assoc_get(s, k) {
            Some(v) => Some(v),
            None => spec_assoc_get(t, k),
        },
    decreases s.len(),
{
    if s.len() == 0 {
        assert(s + t =~= t);
    } else {
        assert((s + t)[0] == s[0]);
        if s[0].0 != k {
            assert((s + t).drop_first() =~= s.drop_first() + t);
            lemma_assoc_get_concat(s.drop_first(), t, k);
        }
    }
}

/// A found value is some entry's value, under its key.
pub proof fn lemma_assoc_get_found(s: Seq<(usize, Vec<OutputSettings>)>, k: usize)
    ensures
        match spec_assoc_get(s, k) {
            Some(v) => exists|i: int| 0 <= i < s.len() && (#[trigger] s[i]).0 == k && s[i].1 == v,
            None => true,
        },
    decreases s.len(),
{
    if s.len() > 0 && s[0].0 != k {
        lemma_assoc_get_found(s.drop_first(), k);
        match spec_assoc_get(s.drop_first(), k) {
            Some(v) => {
                let i = choose|i: int|
                    0 <= i < s.drop_first().len() && (#[trigger] s.drop_first()[i]).0 == k
                        && s.drop_first()[i].1 == v;
                assert(s[i + 1] == s.drop_first()[i]);
            },
            None => {},
        }
    }
}

/// A lookup misses exactly when no entry carries the key.
pub proof fn lemma_assoc_get_none_iff(s: Seq<(usize, Vec<OutputSettings>)>, k: usize)
    ensures
        spec_assoc_get(s, k) is None <==> (forall|i: int| 0 <= i < s.len() ==> (#[trigger] s[i]).0 != k),
    decreases s.len(),
{
    if s.len() > 0 {
        lemma_assoc_get_none_iff(s.drop_first(), k);
        if s[0].0 != k {
            if spec_assoc_get(s, k) is None {
                assert forall|i: int| 0 <= i < s.len() implies (#[trigger] s[i]).0 != k by {
                    if i > 0 {
                        assert(s[i] == s.drop_first()[i - 1]);
                    }
                }
            } else {
                let i = choose|i: int|
                    0 <= i < s.drop_first().len() && (#[trigger] s.drop_first()[i]).0 == k;
                assert(s[i + 1].0 == k);
            }
        }
    }
}

/// Lookup in a one-entry list.
proof fn lemma_assoc_get_single(e: (usize, Vec<OutputSettings>), k: usize)
    ensures
        e.0 == k ==> spec_assoc_get(seq![e], k) == Some(e.1),
        e.0 != k ==> spec_assoc_get(seq![e], k) is None,
{
    assert(seq![e].len() == 1);
    assert(seq![e][0] == e);
    assert(seq![e].drop_first() =~= Seq::<(usize, Vec<OutputSettings>)>::empty());
    assert(spec_assoc_get(Seq::<(usize, Vec<OutputSettings>)>::empty(), k) is None);
    assert(spec_assoc_get(seq![e].drop_first(), k) is None);
}

impl Mapping {
    /// The backing entry list.
    pub closed spec fn entries_view(&self) -> Seq<(usize, Vec<OutputSettings>)> {
        self.entries@
    }

    /// Keys are pairwise distinct.
    pub open spec fn inv(&self) -> bool {
        forall|i: int, j: int|
            0 <= i < j < self.entries_view().len() ==> (#[trigger] self.entries_view()[i]).0 != (
            #[trigger] self.entries_view()[j]).0
    }

    /// The outputs mapped for input slot `k`, if any.
    pub open spec fn spec_get(&self, k: usize) -> Option<Vec<OutputSettings>> {
        spec_assoc_get(self.entries_view(), k)
    }

    /// Every target named anywhere in the mapping has well-formed settings.
    pub open spec fn all_wf(&self) -> bool {
        forall|i: int, j: int|
            0 <= i < self.entries_view().len() && 0 <= j < (#[trigger] self.entries_view()[i]).1@.len()
                ==> (#[trigger] self.entries_view()[i].1@[j]).wf()
    }

    /// An empty mapping.
    pub fn new() -> (r: Self)
        ensures
            r.entries_view() =~= Seq::<(usize, Vec<OutputSettings>)>::empty(),
            r.inv(),
            r.all_wf(),
    {
        Mapping { entries: Vec::new() }
    }

    /// The entries in storage order, for read-only walks of the whole
    /// mapping.
    pub fn entries(&self) -> (r: &Vec<(usize, Vec<OutputSettings>)>)
        ensures
            r@ == self.entries_view(),
    {
        &self.entries
    }

    /// Look up the outputs for input slot `k`.
    #[verifier::loop_isolation(false)]
    pub fn get(&self, k: usize) -> (r: Option<&Vec<OutputSettings>>)
        ensures
            match r {
                Some(v) => self.spec_get(k) == Some(*v),
                None => self.spec_get(k) is None,
            },
    {
        let n = self.entries.len();
        let mut i: usize = 0;
        while i < n
            invariant
                0 <= i <= n,
                n == self.entries@.len(),
                forall|j: int| 0 <= j < i ==> (#[trigger] self.entries@[j]).0 != k,
            decreases n - i,
        {
            if self.entries[i].0 == k {
                proof {
                    let s = self.entries_view();
                    assert(s =~= s.take(i as int) + s.skip(i as int));
                    lemma_assoc_get_concat(s.take(i as int), s.skip(i as int), k);
                    lemma_assoc_get_none_iff(s.take(i as int), k);
                    assert(s.skip(i as int)[0] == s[i as int]);
                }
                return Some(&self.entries[i].1);
            }
            i += 1;
        }
        proof {
            lemma_assoc_get_none_iff(self.entries_view(), k);
        }
        None
    }

    /// Map input slot `k` to the given outputs, replacing any earlier entry
    /// for it. Other slots keep their outputs.
    #[verifier::loop_isolation(false)]
    pub fn insert(&mut self, k: usize, outputs: Vec<OutputSettings>)
        requires
            old(self).inv(),
        ensures
            final(self).inv(),
            final(self).spec_get(k) == Some(outputs),
            forall|k2: usize| k2 != k ==> #[trigger] final(self).spec_get(k2) == old(self).spec_get(k2),
    {
        let ghost s_old = self.entries_view();
        let n = self.entries.len();
        let mut i: usize = 0;
        while i < n
            invariant
                0 <= i <= n,
                self.entries@ == s_old,
                n == self.entries@.len(),
                forall|j: int| 0 <= j < i ==> (#[trigger] self.entries@[j]).0 != k,
            decreases n - i,
        {
            if self.entries[i].0 == k {
                self.entries.set(i, (k, outputs));
                proof {
                    let s = self.entries_view();
                    assert(s =~= s_old.update(i as int, (k, s[i as int].1)));
                    lemma_assoc_update(s_old, s, i as int, k);
                }
                return ;
            }
            i += 1;
        }
        self.entries.push((k, outputs));
        proof {
            let s = self.entries_view();
            assert(s =~= s_old + seq![(k, outputs)]);
            lemma_assoc_get_none_iff(s_old, k);
            lemma_assoc_get_concat(s_old, seq![(k, outputs)], k);
            assert(spec_assoc_get(seq![(k, outputs)], k) == Some(outputs));
            assert forall|k2: usize| k2 != k implies #[trigger] spec_assoc_get(s, k2)
                == spec_assoc_get(s_old, k2) by {
                lemma_assoc_get_concat(s_old, seq![(k, outputs)], k2);
                if spec_assoc_get(s_old, k2) is None {
                    lemma_assoc_get_single((k, outputs), k2);
                }
            }
        }
    }

    /// Unmap input slot `k`, if mapped. Other slots keep their outputs.
    #[verifier::loop_isolation(false)]
    pub fn remove(&mut self, k: usize)
        requires
            old(self).inv(),
        ensures
            final(self).inv(),
            final(self).spec_get(k) is None,
            forall|k2: usize| k2 != k ==> #[trigger] final(self).spec_get(k2) == old(self).spec_get(k2),
    {
        let ghost s_old = self.entries_view();
        let n = self.entries.len();
        let mut i: usize = 0;
        while i < n
            invariant
                0 <= i <= n,
                self.entries@ == s_old,
                n == self.entries@.len(),
                forall|j: int| 0 <= j < i ==> (#[trigger] self.entries@[j]).0 != k,
            decreases n - i,
        {
            if self.entries[i].0 == k {
                let ghost pre = self.entries_view();
                self.entries.remove(i);
                proof {
                    let s = self.entries_view();
                    assert(s =~= pre.take(i as int) + pre.skip(i as int + 1));
                    lemma_assoc_removed(pre, i as int, k);
                }
                return ;
            }
            i += 1;
        }
        proof {
            lemma_assoc_get_none_iff(self.entries_view(), k);
        }
    }
}

/// Replacing the value of the (sole) entry for `k` in place changes that
/// key's lookup and no other.
proof fn lemma_assoc_update(
    s_old: Seq<(usize, Vec<OutputSettings>)>,
    s_new: Seq<(usize, Vec<OutputSettings>)>,
    i: int,
    k: usize,
)
    requires
        0 <= i < s_old.len(),
        s_new =~= s_old.update(i, s_new[i]),
        s_old[i].0 == k,
        s_new[i].0 == k,
        forall|j: int| 0 <= j < i ==> (#[trigger] s_old[j]).0 != k,
        forall|i2: int, j2: int|
            0 <= i2 < j2 < s_old.len() ==> (#[trigger] s_old[i2]).0 != (#[trigger] s_old[j2]).0,
    ensures
        forall|i2: int, j2: int|
            0 <= i2 < j2 < s_new.len() ==> (#[trigger] s_new[i2]).0 != (#[trigger] s_new[j2]).0,
        spec_assoc_get(s_new, k) == Some(s_new[i].1),
        forall|k2: usize| k2 != k ==> #[trigger] spec_assoc_get(s_new, k2) == spec_assoc_get(s_old, k2),
{
    assert(s_new =~= s_new.take(i) + seq![s_new[i]] + s_new.skip(i + 1));
    assert(s_old =~= s_old.take(i) + seq![s_old[i]] + s_old.skip(i + 1));
    assert(s_new.take(i) =~= s_old.take(i));
    assert(s_new.skip(i + 1) =~= s_old.skip(i + 1));
    lemma_assoc_get_none_iff(s_old.take(i), k);
    lemma_assoc_get_concat(s_new.take(i) + seq![s_new[i]], s_new.skip(i + 1), k);
    lemma_assoc_get_concat(s_new.take(i), seq![s_new[i]], k);
    assert(spec_assoc_get(s_new, k) == Some(s_new[i].1));
    assert forall|k2: usize| k2 != k implies #[trigger] spec_assoc_get(s_new, k2) == spec_assoc_get(
        s_old,
        k2,
    ) by {
        lemma_assoc_get_concat(s_new.take(i) + seq![s_new[i]], s_new.skip(i + 1), k2);
        lemma_assoc_get_concat(s_new.take(i), seq![s_new[i]], k2);
        lemma_assoc_get_concat(s_old.take(i) + seq![s_old[i]], s_old.skip(i + 1), k2);
        lemma_assoc_get_concat(s_old.take(i), seq![s_old[i]], k2);
        lemma_assoc_get_single(s_new[i], k2);
        lemma_assoc_get_single(s_old[i], k2);
    }
}

/// Removing the (sole) entry for `k` empties that key's lookup and keeps
/// every other.
proof fn lemma_assoc_removed(pre: Seq<(usize, Vec<OutputSettings>)>, i: int, k: usize)
    requires
        0 <= i < pre.len(),
        pre[i].0 == k,
        forall|j: int| 0 <= j < i ==> (#[trigger] pre[j]).0 != k,
        forall|i2: int, j2: int|
            0 <= i2 < j2 < pre.len() ==> (#[trigger] pre[i2]).0 != (#[trigger] pre[j2]).0,
    ensures
        ({
            let s = pre.take(i) + pre.skip(i + 1);
            &&& (forall|i2: int, j2: int|
                0 <= i2 < j2 < s.len() ==> (#[trigger] s[i2]).0 != (#[trigger] s[j2]).0)
            &&& spec_assoc_get(s, k) is None
            &&& (forall|k2: usize|
                k2 != k ==> #[trigger] spec_assoc_get(s, k2) == spec_assoc_get(pre, k2))
        }),
{
    let s = pre.take(i) + pre.skip(i + 1);
    assert(forall|j: int|
        0 <= j < s.len() ==> #[trigger] s[j] == (if j < i {
            pre[j]
        } else {
            pre[j + 1]
        }));
    assert forall|j: int| 0 <= j < s.len() implies (#[trigger] s[j]).0 != k by {
        if j >= i {
            assert(s[j] == pre[j + 1]);
        }
    }
    lemma_assoc_get_none_iff(s, k);
    assert(pre =~= pre.take(i) + seq![pre[i]] + pre.skip(i + 1));
    assert forall|k2: usize| k2 != k implies #[trigger] spec_assoc_get(s, k2) == spec_assoc_get(
        pre,
        k2,
    ) by {
        lemma_assoc_get_concat(pre.take(i), pre.skip(i + 1), k2);
        lemma_assoc_get_concat(pre.take(i) + seq![pre[i]], pre.skip(i + 1), k2);
        lemma_assoc_get_concat(pre.take(i), seq![pre[i]], k2);
        lemma_assoc_get_single(pre[i], k2);
    }
}

/// Two mappings agree entry by entry, with output lists compared by content.
pub open spec fn same_mapping(a: Mapping, b: Mapping) -> bool {
    &&& a.entries_view().len() == b.entries_view().len()
    &&& forall|i: int|
        0 <= i < a.entries_view().len() ==> (#[trigger] a.entries_view()[i]).0 == (
        #[trigger] b.entries_view()[i]).0 && same_outputs_list(
            a.entries_view()[i].1@,
            b.entries_view()[i].1@,
        )
}

impl Clone for Mapping {
    /// A deep copy agreeing with the original entry by entry.
    #[verifier::loop_isolation(false)]
    fn clone(&self) -> (r: Self)
        ensures
            same_mapping(r, *self),
    {
        let mut entries: Vec<(usize, Vec<OutputSettings>)> = Vec::new();
        let n = self.entries.len();
        let mut i: usize = 0;
        while i < n
            invariant
                0 <= i <= n,
                n == self.entries@.len(),
                entries@.len() == i,
                forall|j: int|
                    0 <= j < i ==> (#[trigger] entries@[j]).0 == self.entries@[j].0
                        && same_outputs_list(entries@[j].1@, self.entries@[j].1@),
            decreases n - i,
        {
            let mut outputs: Vec<OutputSettings> = Vec::new();
            let m = self.entries[i].1.len();
            let mut j: usize = 0;
            while j < m
                invariant
                    0 <= j <= m,
                    0 <= i < self.entries@.len(),
                    m == self.entries@[i as int].1@.len(),
                    outputs@.len() == j,
                    forall|l: int|
                        0 <= l < j ==> same_output_settings(
                            #[trigger] outputs@[l],
                            self.entries@[i as int].1@[l],
                        ),
                decreases m - j,
            {
                outputs.push(self.entries[i].1[j].clone());
                j += 1;
            }
            let key = self.entries[i].0;
            entries.push((key, outputs));
            i += 1;
        }
        Mapping { entries }
    }
}

/// A named set of mappings. `id` is the preset's position in the preset
/// list, recomputed after every structural change of that list.
#[derive(Debug)]
pub struct Preset {
    pub id: usize,
    pub name: String,
    pub mapping: Mapping,
}

/// Two presets agree on id, name and mapping content.
pub open spec fn same_preset(a: Preset, b: Preset) -> bool {
    &&& a.id == b.id
    &&& a.name@ == b.name@
    &&& same_mapping(a.mapping, b.mapping)
}

impl Preset {
    pub open spec fn wf(&self) -> bool {
        self.mapping.inv() && self.mapping.all_wf()
    }

    /// A preset with no mappings yet.
    pub fn new(id: usize, name: String) -> (r: Self)
        ensures
            r.id == id,
            r.name == name,
            r.mapping.entries_view() =~= Seq::<(usize, Vec<OutputSettings>)>::empty(),
            r.wf(),
    {
        Preset { id, name, mapping: Mapping::new() }
    }
}

impl Preset {
    /// A preset named after its position: the preset at index `id` is
    /// "Preset N" with N = id + 1.
    pub fn new_from_id(id: usize) -> (r: Self)
        requires
            id < usize::MAX,
        ensures
            r.id == id,
            r.name@ == "Preset "@ + spec_dec_digits(id + 1),
            r.mapping.entries_view() =~= Seq::<(usize, Vec<OutputSettings>)>::empty(),
            r.wf(),
    {
        let mut name = String::from_str("Preset ");
        push_decimal(&mut name, (id + 1) as u64);
        Preset::new(id, name)
    }
}

impl Clone for Preset {
    /// A deep copy agreeing with the original on id, name and mapping.
    fn clone(&self) -> (r: Self)
        ensures
            same_preset(r, *self),
    {
        Preset { id: self.id, name: self.name.clone(), mapping: self.mapping.clone() }
    }
}

} // verus!
