//! Held-state bookkeeping: which off-messages are owed to which outputs for
//! currently sounding notes and pressed pedals, and which pedal values are
//! held for replay after a preset switch.

use vstd::prelude::*;

use crate::events::MidiEvent;

verus! {

/// One buffered off-event: the output it is owed to and the exact message to
/// send there.
#[derive(Debug)]
pub struct EventBufferItem {
    pub output_name: String,
    pub off_event: MidiEvent,
}

/// An item as the specifications see it: output name content plus message.
pub open spec fn item_model(it: EventBufferItem) -> (Seq<char>, MidiEvent) {
    (it.output_name@, it.off_event)
}

/// A bucket of items as the specifications see it.
pub open spec fn items_model(v: Seq<EventBufferItem>) -> Seq<(Seq<char>, MidiEvent)> {
    v.map_values(|it: EventBufferItem| item_model(it))
}

/// The pending-off map: for each off-trigger event (the exact message whose
/// arrival resolves the state), the buffered off-events still owed. Ordered;
/// keys are pairwise distinct; a bucket holds no duplicate items.
#[derive(Debug)]
pub struct PendingOffs {
    entries: Vec<(MidiEvent, Vec<EventBufferItem>)>,
}

/// Position of the entry for `k`, if present (first, hence only, match).
pub open spec fn off_key_idx(m: Seq<(MidiEvent, Seq<(Seq<char>, MidiEvent)>)>, k: MidiEvent) -> Option<
    int,
>
    decreases m.len(),
{
    if m.len() == 0 {
        None
    } else if m[0].0 == k {
        Some(0int)
    } else {
        match off_key_idx(m.drop_first(), k) {
            Some(i) => Some(i + 1),
            None => None,
        }
    }
}

/// `off_key_idx` finds exactly the first position carrying the key.
pub proof fn lemma_off_key_idx_char(m: Seq<(MidiEvent, Seq<(Seq<char>, MidiEvent)>)>, k: MidiEvent)
    ensures
        match off_key_idx(m, k) {
            Some(i) => 0 <= i < m.len() && m[i].0 == k && (forall|j: int|
                0 <= j < i ==> (#[trigger] m[j]).0 != k),
            None => forall|j: int| 0 <= j < m.len() ==> (#[trigger] m[j]).0 != k,
        },
    decreases m.len(),
{
    if m.len() > 0 && m[0].0 != k {
        lemma_off_key_idx_char(m.drop_first(), k);
        match off_key_idx(m.drop_first(), k) {
            Some(i) => {
                assert(m.drop_first()[i] == m[i + 1]);
                assert forall|j: int| 0 <= j < i + 1 implies (#[trigger] m[j]).0 != k by {
                    if j > 0 {
                        assert(m[j] == m.drop_first()[j - 1]);
                    }
                }
            },
            None => {
                assert forall|j: int| 0 <= j < m.len() implies (#[trigger] m[j]).0 != k by {
                    if j > 0 {
                        assert(m[j] == m.drop_first()[j - 1]);
                    }
                }
            },
        }
    }
}

/// The converse of `lemma_off_key_idx_char`: a position carrying the key,
/// with none before it, is the one `off_key_idx` finds.
pub proof fn lemma_off_key_idx_of(
    m: Seq<(MidiEvent, Seq<(Seq<char>, MidiEvent)>)>,
    k: MidiEvent,
    i: int,
)
    requires
        0 <= i < m.len(),
        m[i].0 == k,
        forall|j: int| 0 <= j < i ==> (#[trigger] m[j]).0 != k,
    ensures
        off_key_idx(m, k) == Some(i),
{
    lemma_off_key_idx_char(m, k);
    match off_key_idx(m, k) {
        Some(x) => {
            if x < i {
                assert(m[x].0 != k);
            } else if x > i {
                assert(m[i].0 != k);
            }
        },
        None => {
            assert(m[i].0 != k);
        },
    }
}

/// Position of the first item owed to the named output, if any.
pub open spec fn item_idx(items: Seq<(Seq<char>, MidiEvent)>, name: Seq<char>) -> Option<int>
    decreases items.len(),
{
    if items.len() == 0 {
        None
    } else if items[0].0 == name {
        Some(0int)
    } else {
        match item_idx(items.drop_first(), name) {
            Some(i) => Some(i + 1),
            None => None,
        }
    }
}

/// `item_idx` finds exactly the first item owed to the named output.
pub proof fn lemma_item_idx_char(items: Seq<(Seq<char>, MidiEvent)>, name: Seq<char>)
    ensures
        match item_idx(items, name) {
            Some(i) => 0 <= i < items.len() && items[i].0 == name && (forall|j: int|
                0 <= j < i ==> (#[trigger] items[j]).0 != name),
            None => forall|j: int| 0 <= j < items.len() ==> (#[trigger] items[j]).0 != name,
        },
    decreases items.len(),
{
    if items.len() > 0 && items[0].0 != name {
        lemma_item_idx_char(items.drop_first(), name);
        match item_idx(items.drop_first(), name) {
            Some(i) => {
                assert(items.drop_first()[i] == items[i + 1]);
                assert forall|j: int| 0 <= j < i + 1 implies (#[trigger] items[j]).0 != name by {
                    if j > 0 {
                        assert(items[j] == items.drop_first()[j - 1]);
                    }
                }
            },
            None => {
                assert forall|j: int| 0 <= j < items.len() implies (#[trigger] items[j]).0 != name by {
                    if j > 0 {
                        assert(items[j] == items.drop_first()[j - 1]);
                    }
                }
            },
        }
    }
}

/// What inserting a buffered off-event does to the map: a new entry for a
/// fresh key, and otherwise the item joins its key's bucket unless the very
/// same item is already owed.
pub open spec fn spec_pending_insert(
    m: Seq<(MidiEvent, Seq<(Seq<char>, MidiEvent)>)>,
    k: MidiEvent,
    it: (Seq<char>, MidiEvent),
) -> Seq<(MidiEvent, Seq<(Seq<char>, MidiEvent)>)> {
    match off_key_idx(m, k) {
        Some(i) => if m[i].1.contains(it) {
            m
        } else {
            m.update(i, (k, m[i].1.push(it)))
        },
        None => m.push((k, seq![it])),
    }
}

/// What resolving one target's off does to the map: in the bucket for `k`,
/// the first item owed to the named output is withdrawn, but only when its
/// message is addressed to the given channel; everything else stays.
pub open spec fn spec_pending_remove_matching(
    m: Seq<(MidiEvent, Seq<(Seq<char>, MidiEvent)>)>,
    k: MidiEvent,
    name: Seq<char>,
    channel: u8,
) -> Seq<(MidiEvent, Seq<(Seq<char>, MidiEvent)>)> {
    match off_key_idx(m, k) {
        Some(i) => match item_idx(m[i].1, name) {
            Some(j) => if m[i].1[j].1.spec_channel() == channel {
                m.update(i, (k, m[i].1.remove(j)))
            } else {
                m
            },
            None => m,
        },
        None => m,
    }
}

impl PendingOffs {
    /// The map as the specifications see it.
    pub closed spec fn model(&self) -> Seq<(MidiEvent, Seq<(Seq<char>, MidiEvent)>)> {
        self.entries@.map_values(
            |e: (MidiEvent, Vec<EventBufferItem>)| (e.0, items_model(e.1@)),
        )
    }

    /// Keys pairwise distinct; no bucket owes the same item twice.
    pub open spec fn inv(&self) -> bool {
        &&& forall|i: int, j: int|
            0 <= i < j < self.model().len() ==> (#[trigger] self.model()[i]).0 != (
            #[trigger] self.model()[j]).0
        &&& forall|i: int, j1: int, j2: int|
            0 <= i < self.model().len() && 0 <= j1 < j2 < self.model()[i].1.len()
                ==> #[trigger] self.model()[i].1[j1] != #[trigger] self.model()[i].1[j2]
    }

    /// An empty map.
    pub fn new() -> (r: Self)
        ensures
            r.model() =~= Seq::<(MidiEvent, Seq<(Seq<char>, MidiEvent)>)>::empty(),
            r.inv(),
    {
        PendingOffs { entries: Vec::new() }
    }

    /// Buffer an off-event, as `spec_pending_insert` describes.
    #[verifier::loop_isolation(false)]
    pub fn insert(&mut self, key: MidiEvent, item: EventBufferItem)
        requires
            old(self).inv(),
        ensures
            final(self).inv(),
            final(self).model() == spec_pending_insert(
                old(self).model(),
                key,
                item_model(item),
            ),
    {
        let ghost m0 = self.model();
        proof {
            lemma_off_key_idx_char(m0, key);
        }
        let n = self.entries.len();
        let mut i: usize = 0;
        while i < n
            invariant
                0 <= i <= n,
                self.model() == m0,
                n == self.entries@.len(),
                forall|j: int| 0 <= j < i ==> (#[trigger] self.entries@[j]).0 != key,
            decreases n - i,
        {
            if self.entries[i].0 == key {
                proof {
                    assert(m0[i as int].0 == key);
                    assert(forall|j: int| 0 <= j < i ==> (#[trigger] m0[j]).0 != key);
                    assert(off_key_idx(m0, key) == Some(i as int));
                }
                let bucket_len = self.entries[i].1.len();
                let mut j: usize = 0;
                while j < bucket_len
                    invariant
                        0 <= j <= bucket_len,
                        0 <= i < self.entries@.len(),
                        self.model() == m0,
                        bucket_len == self.entries@[i as int].1@.len(),
                        forall|l: int|
                            0 <= l < j ==> item_model(#[trigger] self.entries@[i as int].1@[l])
                                != item_model(item),
                    decreases bucket_len - j,
                {
                    if self.entries[i].1[j].output_name == item.output_name && self.entries[i].1[j].off_event
                        == item.off_event {
                        proof {
                            assert(m0[i as int].1[j as int] == item_model(item));
                            assert(m0[i as int].1.contains(item_model(item)));
                        }
                        return ;
                    }
                    j += 1;
                }
                proof {
                    assert forall|l: int| 0 <= l < m0[i as int].1.len() implies #[trigger] m0[i as int].1[l] != item_model(item) by {
                        assert(m0[i as int].1[l] == item_model(self.entries@[i as int].1@[l]));
                    }
                    assert(!m0[i as int].1.contains(item_model(item)));
                }
                let mut e = self.entries.remove(i);
                e.1.push(item);
                self.entries.insert(i, e);
                proof {
                    let mnew = self.model();
                    assert(mnew =~~= m0.update(i as int, (key, m0[i as int].1.push(item_model(item)))));
                }
                return ;
            }
            i += 1;
        }
        proof {
            assert(forall|j: int| 0 <= j < m0.len() ==> (#[trigger] m0[j]).0 != key);
            assert(off_key_idx(m0, key) is None) by {
                lemma_off_key_idx_char(m0, key);
                if off_key_idx(m0, key) is Some {
                    let i = off_key_idx(m0, key)->Some_0;
                    assert(m0[i].0 == key);
                }
            }
        }
        let mut bucket: Vec<EventBufferItem> = Vec::new();
        bucket.push(item);
        self.entries.push((key, bucket));
        proof {
            assert(self.model() =~~= m0.push((key, seq![item_model(item)])));
        }
    }

    /// Withdraw the first off-event owed to `output_name` under `key` when it
    /// is addressed to `channel`, as `spec_pending_remove_matching` describes.
    #[verifier::loop_isolation(false)]
    pub fn remove_matching(&mut self, key: MidiEvent, output_name: &String, channel: u8)
        requires
            old(self).inv(),
        ensures
            final(self).inv(),
            final(self).model() == spec_pending_remove_matching(
                old(self).model(),
                key,
                output_name@,
                channel,
            ),
    {
        let ghost m0 = self.model();
        proof {
            lemma_off_key_idx_char(m0, key);
        }
        let n = self.entries.len();
        let mut i: usize = 0;
        while i < n
            invariant
                0 <= i <= n,
                self.model() == m0,
                n == self.entries@.len(),
                forall|j: int| 0 <= j < i ==> (#[trigger] self.entries@[j]).0 != key,
            decreases n - i,
        {
            if self.entries[i].0 == key {
                proof {
                    assert(m0[i as int].0 == key);
                    assert(off_key_idx(m0, key) == Some(i as int));
                    lemma_item_idx_char(m0[i as int].1, output_name@);
                }
                let bucket_len = self.entries[i].1.len();
                let mut j: usize = 0;
                while j < bucket_len
                    invariant
                        0 <= j <= bucket_len,
                        0 <= i < self.entries@.len(),
                        self.model() == m0,
                        bucket_len == self.entries@[i as int].1@.len(),
                        forall|l: int|
                            0 <= l < j ==> (#[trigger] self.entries@[i as int].1@[l]).output_name@
                                != output_name@,
                    decreases bucket_len - j,
                {
                    if self.entries[i].1[j].output_name == *output_name {
                        proof {
                            assert forall|l: int| 0 <= l < j implies (#[trigger] m0[i as int].1[l]).0 != output_name@ by {
                                assert(m0[i as int].1[l] == item_model(
                                    self.entries@[i as int].1@[l],
                                ));
                            }
                            assert(m0[i as int].1[j as int].0 == output_name@);
                            assert(item_idx(m0[i as int].1, output_name@) == Some(j as int));
                        }
                        if self.entries[i].1[j].off_event.channel() == channel {
                            let mut e = self.entries.remove(i);
                            e.1.remove(j);
                            self.entries.insert(i, e);
                            proof {
                                assert(self.model() =~~= m0.update(
                                    i as int,
                                    (key, m0[i as int].1.remove(j as int)),
                                ));
                                lemma_remove_keeps_distinct(m0[i as int].1, j as int);
                            }
                        }
                        return ;
                    }
                    j += 1;
                }
                proof {
                    assert forall|l: int| 0 <= l < m0[i as int].1.len() implies (#[trigger] m0[i as int].1[l]).0 != output_name@ by {
                        assert(m0[i as int].1[l] == item_model(self.entries@[i as int].1@[l]));
                    }
                    assert(item_idx(m0[i as int].1, output_name@) is None) by {
                        lemma_item_idx_char(m0[i as int].1, output_name@);
                        if item_idx(m0[i as int].1, output_name@) is Some {
                            let l = item_idx(m0[i as int].1, output_name@)->Some_0;
                            assert(m0[i as int].1[l].0 == output_name@);
                        }
                    }
                }
                return ;
            }
            i += 1;
        }
        proof {
            assert(off_key_idx(m0, key) is None) by {
                lemma_off_key_idx_char(m0, key);
                if off_key_idx(m0, key) is Some {
                    let i = off_key_idx(m0, key)->Some_0;
                    assert(m0[i].0 == key);
                }
            }
        }
    }

    /// Take the whole bucket for `key` out of the map and hand it back; an
    /// absent key hands back nothing and changes nothing.
    #[verifier::loop_isolation(false)]
    pub fn drain(&mut self, key: MidiEvent) -> (r: Vec<EventBufferItem>)
        requires
            old(self).inv(),
        ensures
            final(self).inv(),
            match off_key_idx(old(self).model(), key) {
                Some(i) => items_model(r@) == old(self).model()[i].1 && final(self).model()
                    == old(self).model().remove(i),
                None => r@.len() == 0 && final(self).model() == old(self).model(),
            },
    {
        let ghost m0 = self.model();
        proof {
            lemma_off_key_idx_char(m0, key);
        }
        let n = self.entries.len();
        let mut i: usize = 0;
        while i < n
            invariant
                0 <= i <= n,
                self.model() == m0,
                n == self.entries@.len(),
                forall|j: int| 0 <= j < i ==> (#[trigger] self.entries@[j]).0 != key,
            decreases n - i,
        {
            if self.entries[i].0 == key {
                proof {
                    assert(m0[i as int].0 == key);
                    assert(off_key_idx(m0, key) == Some(i as int));
                }
                let e = self.entries.remove(i);
                proof {
                    assert(self.model() =~~= m0.remove(i as int));
                }
                return e.1;
            }
            i += 1;
        }
        proof {
            assert(off_key_idx(m0, key) is None) by {
                lemma_off_key_idx_char(m0, key);
                if off_key_idx(m0, key) is Some {
                    let i = off_key_idx(m0, key)->Some_0;
                    assert(m0[i].0 == key);
                }
            }
        }
        Vec::new()
    }
}

/// Removing one element of a duplicate-free sequence keeps it duplicate-free.
proof fn lemma_remove_keeps_distinct(s: Seq<(Seq<char>, MidiEvent)>, j: int)
    requires
        0 <= j < s.len(),
        forall|a: int, b: int| 0 <= a < b < s.len() ==> #[trigger] s[a] != #[trigger] s[b],
    ensures
        forall|a: int, b: int|
            0 <= a < b < s.remove(j).len() ==> #[trigger] s.remove(j)[a] != #[trigger] s.remove(j)[b],
{
    assert forall|a: int, b: int| 0 <= a < b < s.remove(j).len() implies #[trigger] s.remove(j)[a]
        != #[trigger] s.remove(j)[b] by {
        let a2 = if a < j {
            a
        } else {
            a + 1
        };
        let b2 = if b < j {
            b
        } else {
            b + 1
        };
        assert(s.remove(j)[a] == s[a2]);
        assert(s.remove(j)[b] == s[b2]);
    }
}

/// The held-pedal values: for each (channel, controller) with a pedal held
/// down, the value last seen, kept for replay after a preset switch.
/// Ordered by first press; the pairs are pairwise distinct.
#[derive(Debug)]
pub struct HeldPedals {
    entries: Vec<(u8, u8, u8)>,
}

/// Position of the entry for the (channel, controller) pair, if present.
pub open spec fn pedal_idx(s: Seq<(u8, u8, u8)>, channel: u8, controller: u8) -> Option<int>
    decreases s.len(),
{
    if s.len() == 0 {
        None
    } else if s[0].0 == channel && s[0].1 == controller {
        Some(0int)
    } else {
        match pedal_idx(s.drop_first(), channel, controller) {
            Some(i) => Some(i + 1),
            None => None,
        }
    }
}

/// `pedal_idx` finds exactly the first entry for the pair.
pub proof fn lemma_pedal_idx_char(s: Seq<(u8, u8, u8)>, channel: u8, controller: u8)
    ensures
        match pedal_idx(s, channel, controller) {
            Some(i) => 0 <= i < s.len() && s[i].0 == channel && s[i].1 == controller && (forall|
                j: int,
            |
                0 <= j < i ==> !((#[trigger] s[j]).0 == channel && s[j].1 == controller)),
            None => forall|j: int|
                0 <= j < s.len() ==> !((#[trigger] s[j]).0 == channel && s[j].1 == controller),
        },
    decreases s.len(),
{
    if s.len() > 0 && !(s[0].0 == channel && s[0].1 == controller) {
        lemma_pedal_idx_char(s.drop_first(), channel, controller);
        match pedal_idx(s.drop_first(), channel, controller) {
            Some(i) => {
                assert(s.drop_first()[i] == s[i + 1]);
                assert forall|j: int| 0 <= j < i + 1 implies !((#[trigger] s[j]).0 == channel
                    && s[j].1 == controller) by {
                    if j > 0 {
                        assert(s[j] == s.drop_first()[j - 1]);
                    }
                }
            },
            None => {
                assert forall|j: int| 0 <= j < s.len() implies !((#[trigger] s[j]).0 == channel
                    && s[j].1 == controller) by {
                    if j > 0 {
                        assert(s[j] == s.drop_first()[j - 1]);
                    }
                }
            },
        }
    }
}

impl HeldPedals {
    /// The held values in press order: (channel, controller, value).
    pub closed spec fn model(&self) -> Seq<(u8, u8, u8)> {
        self.entries@
    }

    /// No (channel, controller) pair appears twice.
    pub open spec fn inv(&self) -> bool {
        forall|i: int, j: int|
            0 <= i < j < self.model().len() ==> !((#[trigger] self.model()[i]).0 == (
            #[trigger] self.model()[j]).0 && self.model()[i].1 == self.model()[j].1)
    }

    /// No pedal held.
    pub fn new() -> (r: Self)
        ensures
            r.model() =~= Seq::<(u8, u8, u8)>::empty(),
            r.inv(),
    {
        HeldPedals { entries: Vec::new() }
    }

    /// Record the value a pedal is held at: a new pair is appended, a known
    /// pair keeps its place and takes the new value.
    #[verifier::loop_isolation(false)]
    pub fn insert(&mut self, channel: u8, controller: u8, value: u8)
        requires
            old(self).inv(),
        ensures
            final(self).inv(),
            final(self).model() == match pedal_idx(old(self).model(), channel, controller) {
                Some(i) => old(self).model().update(i, (channel, controller, value)),
                None => old(self).model().push((channel, controller, value)),
            },
    {
        let ghost m0 = self.model();
        proof {
            lemma_pedal_idx_char(m0, channel, controller);
        }
        let n = self.entries.len();
        let mut i: usize = 0;
        while i < n
            invariant
                0 <= i <= n,
                self.model() == m0,
                n == self.entries@.len(),
                forall|j: int|
                    0 <= j < i ==> !((#[trigger] self.entries@[j]).0 == channel
                        && self.entries@[j].1 == controller),
            decreases n - i,
        {
            if self.entries[i].0 == channel && self.entries[i].1 == controller {
                proof {
                    assert(pedal_idx(m0, channel, controller) == Some(i as int));
                }
                self.entries.set(i, (channel, controller, value));
                return ;
            }
            i += 1;
        }
        proof {
            assert(pedal_idx(m0, channel, controller) is None) by {
                lemma_pedal_idx_char(m0, channel, controller);
                if pedal_idx(m0, channel, controller) is Some {
                    let i = pedal_idx(m0, channel, controller)->Some_0;
                    assert(m0[i].0 == channel && m0[i].1 == controller);
                }
            }
        }
        self.entries.push((channel, controller, value));
    }

    /// Forget a released pedal; unknown pairs change nothing.
    #[verifier::loop_isolation(false)]
    pub fn remove(&mut self, channel: u8, controller: u8)
        requires
            old(self).inv(),
        ensures
            final(self).inv(),
            final(self).model() == match pedal_idx(old(self).model(), channel, controller) {
                Some(i) => old(self).model().remove(i),
                None => old(self).model(),
            },
    {
        let ghost m0 = self.model();
        proof {
            lemma_pedal_idx_char(m0, channel, controller);
        }
        let n = self.entries.len();
        let mut i: usize = 0;
        while i < n
            invariant
                0 <= i <= n,
                self.model() == m0,
                n == self.entries@.len(),
                forall|j: int|
                    0 <= j < i ==> !((#[trigger] self.entries@[j]).0 == channel
                        && self.entries@[j].1 == controller),
            decreases n - i,
        {
            if self.entries[i].0 == channel && self.entries[i].1 == controller {
                proof {
                    assert(pedal_idx(m0, channel, controller) == Some(i as int));
                }
                self.entries.remove(i);
                proof {
                    assert forall|a: int, b: int|
                        0 <= a < b < self.model().len() implies !((#[trigger] self.model()[a]).0
                        == (#[trigger] self.model()[b]).0 && self.model()[a].1 == self.model()[b].1) by {
                        let a2 = if a < i {
                            a
                        } else {
                            a + 1
                        };
                        let b2 = if b < i {
                            b
                        } else {
                            b + 1
                        };
                        assert(self.model()[a] == m0[a2]);
                        assert(self.model()[b] == m0[b2]);
                    }
                }
                return ;
            }
            i += 1;
        }
        proof {
            assert(pedal_idx(m0, channel, controller) is None) by {
                lemma_pedal_idx_char(m0, channel, controller);
                if pedal_idx(m0, channel, controller) is Some {
                    let i = pedal_idx(m0, channel, controller)->Some_0;
                    assert(m0[i].0 == channel && m0[i].1 == controller);
                }
            }
        }
    }

    /// The held values, for replay in press order.
    pub fn list(&self) -> (r: &Vec<(u8, u8, u8)>)
        ensures
            r@ == self.model(),
    {
        &self.entries
    }
}

/// The runtime state the listeners share: pending off-events and held-pedal
/// values. Created empty at process start; never persisted.
#[derive(Debug)]
pub struct EngineState {
    pub event_buffer: PendingOffs,
    pub held_pedals: HeldPedals,
}

impl EngineState {
    pub open spec fn inv(&self) -> bool {
        self.event_buffer.inv() && self.held_pedals.inv()
    }

    /// The empty state.
    pub fn new() -> (r: Self)
        ensures
            r.inv(),
            r.event_buffer.model() =~= Seq::<(MidiEvent, Seq<(Seq<char>, MidiEvent)>)>::empty(),
            r.held_pedals.model() =~= Seq::<(u8, u8, u8)>::empty(),
    {
        EngineState { event_buffer: PendingOffs::new(), held_pedals: HeldPedals::new() }
    }
}

} // verus!
