//! Key-value client that keeps everything in memory.
use bytes::Bytes;
use vstd::prelude::*;

use crate::api::KeyValue;
use crate::buffer::{bytes_as_slice, bytes_clone, bytes_seq};

verus! {

/// One text is before another, by the positions of their characters in the code charts.
pub open spec fn text_before(a: Seq<char>, b: Seq<char>) -> bool
    decreases a.len(),
{
    if b.len() == 0 {
        false
    } else if a.len() == 0 {
        true
    } else if a[0] != b[0] {
        a[0] < b[0]
    } else {
        text_before(a.skip(1), b.skip(1))
    }
}

/// The text begins with a prefix.
pub open spec fn begins_with(text: Seq<char>, prefix: Seq<char>) -> bool {
    prefix.len() <= text.len() && text.take(prefix.len() as int) == prefix
}

proof fn lemma_text_before(a: Seq<char>, b: Seq<char>)
    ensures
        a == b ==> !text_before(a, b),
        a != b ==> text_before(a, b) || text_before(b, a),
        !(text_before(a, b) && text_before(b, a)),
    decreases a.len(),
{
    if a.len() > 0 && b.len() > 0 {
        lemma_text_before(a.skip(1), b.skip(1));
        if a != b && a[0] == b[0] {
            if a.skip(1) == b.skip(1) {
                assert(a =~= seq![a[0]] + a.skip(1));
                assert(b =~= seq![b[0]] + b.skip(1));
            }
        }
    } else if a.len() == 0 && b.len() == 0 {
        assert(a =~= b);
    }
}

proof fn lemma_text_trans(a: Seq<char>, b: Seq<char>, c: Seq<char>)
    requires
        text_before(a, b),
        text_before(b, c),
    ensures
        text_before(a, c),
    decreases a.len(),
{
    if a.len() > 0 && a[0] == b[0] && b[0] == c[0] {
        lemma_text_trans(a.skip(1), b.skip(1), c.skip(1));
    }
}

fn chars_of(s: &str) -> (r: Vec<char>)
    ensures
        r@ == s@,
{
    let mut out: Vec<char> = Vec::new();
    for c in it: s.chars()
        invariant
            out@ == it.seq().subrange(0, it.index() as int),
            it.seq() == s@,
    {
        out.push(c);
        assert(out@ =~= it.seq().subrange(0, it.index() + 1));
    }
    assert(out@ =~= s@);
    out
}

fn is_before(a: &Vec<char>, b: &Vec<char>) -> (r: bool)
    ensures
        r == text_before(a@, b@),
{
    let mut i: usize = 0;
    proof {
        assert(a@.skip(0) =~= a@);
        assert(b@.skip(0) =~= b@);
    }
    loop
        invariant
            i <= a@.len(),
            i <= b@.len(),
            text_before(a@, b@) == text_before(a@.skip(i as int), b@.skip(i as int)),
        decreases a@.len() - i,
    {
        if i >= b.len() {
            return false;
        }
        if i >= a.len() {
            return true;
        }
        proof {
            assert(a@.skip(i as int)[0] == a@[i as int]);
            assert(b@.skip(i as int)[0] == b@[i as int]);
            assert(a@.skip(i as int).skip(1) =~= a@.skip(i + 1));
            assert(b@.skip(i as int).skip(1) =~= b@.skip(i + 1));
        }
        if a[i] != b[i] {
            return a[i] < b[i];
        }
        i += 1;
    }
}

fn has_prefix(text: &Vec<char>, prefix: &Vec<char>) -> (r: bool)
    ensures
        r == begins_with(text@, prefix@),
{
    if prefix.len() > text.len() {
        return false;
    }
    let mut i: usize = 0;
    while i < prefix.len()
        invariant
            i <= prefix@.len() <= text@.len(),
            forall|j: int| 0 <= j < i ==> text@[j] == prefix@[j],
        decreases prefix@.len() - i,
    {
        if text[i] != prefix[i] {
            assert(text@.take(prefix@.len() as int)[i as int] != prefix@[i as int]);
            return false;
        }
        i += 1;
    }
    assert(text@.take(prefix@.len() as int) =~= prefix@);
    true
}

fn same_bytes(a: &[u8], b: &[u8]) -> (r: bool)
    ensures
        r == (a@ == b@),
{
    if a.len() != b.len() {
        return false;
    }
    let mut i: usize = 0;
    while i < a.len()
        invariant
            i <= a@.len() == b@.len(),
            forall|j: int| 0 <= j < i ==> a@[j] == b@[j],
        decreases a@.len() - i,
    {
        if a[i] != b[i] {
            return false;
        }
        i += 1;
    }
    assert(a@ =~= b@);
    true
}

/// The entries as a map.
pub open spec fn entry_map(entries: Seq<(Seq<char>, Seq<u8>)>) -> Map<Seq<char>, Seq<u8>>
    decreases entries.len(),
{
    if entries.len() == 0 {
        Map::empty()
    } else {
        entry_map(entries.drop_last()).insert(entries.last().0, entries.last().1)
    }
}

/// The keys ascend.
pub open spec fn keys_ascend(entries: Seq<(Seq<char>, Seq<u8>)>) -> bool {
    forall|i: int, j: int|
        #![trigger entries[i], entries[j]]
        0 <= i < j < entries.len() ==> text_before(entries[i].0, entries[j].0)
}

proof fn lemma_entry_map(entries: Seq<(Seq<char>, Seq<u8>)>, k: Seq<char>)
    requires
        keys_ascend(entries),
    ensures
        entry_map(entries).contains_key(k) <==> exists|i: int|
            0 <= i < entries.len() && (#[trigger] entries[i]).0 == k,
        forall|i: int|
            0 <= i < entries.len() && (#[trigger] entries[i]).0 == k ==> entry_map(entries)[k]
                == entries[i].1,
    decreases entries.len(),
{
    if entries.len() > 0 {
        let front = entries.drop_last();
        let n = entries.len() - 1;
        assert forall|i: int, j: int|
            #![trigger front[i], front[j]]
            0 <= i < j < front.len() implies text_before(front[i].0, front[j].0) by {
            assert(front[i] == entries[i] && front[j] == entries[j]);
        }
        lemma_entry_map(front, k);
        if entry_map(front).contains_key(k) {
            let i = choose|i: int| 0 <= i < front.len() && (#[trigger] front[i]).0 == k;
            assert(entries[i].0 == k);
        }
        assert forall|i: int| 0 <= i < entries.len() && (#[trigger] entries[i]).0 == k implies
            entry_map(entries)[k] == entries[i].1 by {
            if i < n {
                assert(front[i] == entries[i]);
                assert(text_before(entries[i].0, entries[n].0));
                lemma_text_before(entries[i].0, entries[n].0);
            }
        }
        if exists|i: int| 0 <= i < entries.len() && (#[trigger] entries[i]).0 == k {
            let i = choose|i: int| 0 <= i < entries.len() && (#[trigger] entries[i]).0 == k;
            if i < n {
                assert(front[i].0 == k);
            }
        }
        if entries[n].0 == k {
            assert(entries.last().0 == k);
        }
    }
}

/// One entry.
#[derive(Debug)]
struct KvEntry {
    key: String,
    chars: Vec<char>,
    value: Bytes,
}

spec fn entry_views(v: Seq<KvEntry>) -> Seq<(Seq<char>, Seq<u8>)> {
    v.map_values(|e: KvEntry| (e.chars@, bytes_seq(e.value)))
}

/// Key-values in memory, ordered by key.
#[derive(Debug)]
pub struct MemoryKvClient {
    entries: Vec<KvEntry>,
}

impl MemoryKvClient {
    pub closed spec fn map(&self) -> Map<Seq<char>, Seq<u8>> {
        entry_map(entry_views(self.entries@))
    }

    pub closed spec fn wf(&self) -> bool {
        &&& keys_ascend(entry_views(self.entries@))
        &&& forall|i: int|
            0 <= i < self.entries@.len() ==> (#[trigger] self.entries@[i]).key@
                == self.entries@[i].chars@
    }

    pub fn new() -> (r: Self)
        ensures
            r.wf(),
            r.map() == Map::<Seq<char>, Seq<u8>>::empty(),
    {
        MemoryKvClient { entries: Vec::new() }
    }

    /// Where a key is, or where it would go.
    fn locate(&self, key: &Vec<char>) -> (r: (usize, bool))
        requires
            self.wf(),
        ensures
            r.0 <= self.entries@.len(),
            r.1 == self.map().contains_key(key@),
            r.1 ==> r.0 < self.entries@.len() && self.entries@[r.0 as int].chars@ == key@
                && self.map()[key@] == bytes_seq(self.entries@[r.0 as int].value),
            forall|i: int|
                0 <= i < r.0 ==> text_before((#[trigger] self.entries@[i]).chars@, key@),
            !r.1 ==> forall|i: int|
                r.0 <= i < self.entries@.len() ==> text_before(
                    key@,
                    (#[trigger] self.entries@[i]).chars@,
                ),
    {
        let ghost views = entry_views(self.entries@);
        proof {
            lemma_entry_map(views, key@);
        }
        let mut i: usize = 0;
        while i < self.entries.len() && is_before(&self.entries[i].chars, key)
            invariant
                i <= self.entries@.len(),
                forall|j: int|
                    0 <= j < i ==> text_before((#[trigger] self.entries@[j]).chars@, key@),
            decreases self.entries@.len() - i,
        {
            i += 1;
        }
        if i < self.entries.len() && !is_before(key, &self.entries[i].chars) {
            proof {
                lemma_text_before(self.entries@[i as int].chars@, key@);
                assert(views[i as int].0 == key@);
            }
            return (i, true);
        }
        proof {
            assert forall|j: int| i <= j < self.entries@.len() implies text_before(
                key@,
                (#[trigger] self.entries@[j]).chars@,
            ) by {
                if j > i {
                    assert(text_before(views[i as int].0, views[j].0));
                    lemma_text_trans(
                        key@,
                        self.entries@[i as int].chars@,
                        self.entries@[j].chars@,
                    );
                }
            }
            assert forall|j: int| 0 <= j < views.len() implies (#[trigger] views[j]).0
                != key@ by {
                lemma_text_before(self.entries@[j].chars@, key@);
                if j < i {
                    assert(text_before(self.entries@[j].chars@, key@));
                } else {
                    assert(text_before(key@, self.entries@[j].chars@));
                }
            }
        }
        (i, false)
    }

    /// Put if absent. Returns the value stored under the key after the call.
    pub fn put_kv_if_absent(&mut self, kv: KeyValue) -> (r: Bytes)
        requires
            old(self).wf(),
        ensures
            final(self).wf(),
            if old(self).map().contains_key(kv.key@) {
                final(self).map() == old(self).map() && bytes_seq(r) == old(self).map()[kv.key@]
            } else {
                &&& final(self).map() == old(self).map().insert(kv.key@, bytes_seq(kv.value))
                &&& bytes_seq(r) == bytes_seq(kv.value)
            },
    {
        let chars = chars_of(kv.key.as_str());
        let (i, found) = self.locate(&chars);
        if found {
            return bytes_clone(&self.entries[i].value);
        }
        let r = bytes_clone(&kv.value);
        self.insert_at(i, kv, chars);
        r
    }

    fn insert_at(&mut self, i: usize, kv: KeyValue, chars: Vec<char>)
        requires
            old(self).wf(),
            i <= old(self).entries@.len(),
            chars@ == kv.key@,
            !old(self).map().contains_key(kv.key@),
            forall|j: int|
                0 <= j < i ==> text_before((#[trigger] old(self).entries@[j]).chars@, chars@),
            forall|j: int|
                i <= j < old(self).entries@.len() ==> text_before(
                    chars@,
                    (#[trigger] old(self).entries@[j]).chars@,
                ),
        ensures
            final(self).wf(),
            final(self).map() == old(self).map().insert(kv.key@, bytes_seq(kv.value)),
    {
        let ghost before = self.entries@;
        let ghost was = entry_views(before);
        let entry = KvEntry { key: kv.key, chars, value: kv.value };
        self.entries.insert(i, entry);
        proof {
            let now = entry_views(self.entries@);
            let added = (chars@, bytes_seq(kv.value));
            assert(now =~= was.insert(i as int, added));
            assert forall|a: int, b: int|
                #![trigger now[a], now[b]]
                0 <= a < b < now.len() implies text_before(now[a].0, now[b].0) by {
                if a < i {
                    assert(now[a] == was[a]);
                    assert(before[a].chars@ == was[a].0);
                } else if a > i {
                    assert(now[a] == was[a - 1]);
                    assert(before[a - 1].chars@ == was[a - 1].0);
                }
                if b < i {
                    assert(now[b] == was[b]);
                    assert(before[b].chars@ == was[b].0);
                } else if b > i {
                    assert(now[b] == was[b - 1]);
                    assert(before[b - 1].chars@ == was[b - 1].0);
                }
            }
            let target = entry_map(was).insert(chars@, added.1);
            assert forall|k: Seq<char>|
                #![trigger entry_map(now).dom().contains(k)]
                #![trigger target.dom().contains(k)]
                entry_map(now).dom().contains(k) == target.dom().contains(k) && (
                target.dom().contains(k) ==> entry_map(now)[k] == target[k]) by {
                lemma_entry_map(was, k);
                lemma_entry_map(now, k);
                if k == chars@ {
                    assert(now[i as int].0 == k);
                } else {
                    if entry_map(now).contains_key(k) {
                        let j = choose|j: int| 0 <= j < now.len() && (#[trigger] now[j]).0 == k;
                        if j < i {
                            assert(was[j].0 == k);
                        } else {
                            assert(was[j - 1].0 == k);
                        }
                    }
                    if entry_map(was).contains_key(k) {
                        let j = choose|j: int| 0 <= j < was.len() && (#[trigger] was[j]).0 == k;
                        if j < i {
                            assert(now[j].0 == k);
                        } else {
                            assert(now[j + 1].0 == k);
                        }
                    }
                }
            }
            assert(entry_map(now) =~= target);
            assert forall|j: int| 0 <= j < self.entries@.len() implies (
            #[trigger] self.entries@[j]).key@ == self.entries@[j].chars@ by {
                if j < i {
                    assert(self.entries@[j] == before[j]);
                } else if j > i {
                    assert(self.entries@[j] == before[j - 1]);
                }
            }
        }
    }

    /// Put, overwriting. Returns the value after the call.
    pub fn put_kv(&mut self, kv: KeyValue) -> (r: Bytes)
        requires
            old(self).wf(),
        ensures
            final(self).wf(),
            final(self).map() == old(self).map().insert(kv.key@, bytes_seq(kv.value)),
            bytes_seq(r) == bytes_seq(kv.value),
    {
        let chars = chars_of(kv.key.as_str());
        let (i, found) = self.locate(&chars);
        let r = bytes_clone(&kv.value);
        let ghost before = self.map();
        if found {
            self.remove_at(i);
            proof {
                assert(before.remove(kv.key@).insert(kv.key@, bytes_seq(kv.value))
                    =~= before.insert(kv.key@, bytes_seq(kv.value)));
            }
        }
        self.insert_at(i, kv, chars);
        r
    }

    fn remove_at(&mut self, i: usize) -> (r: Bytes)
        requires
            old(self).wf(),
            i < old(self).entries@.len(),
        ensures
            final(self).wf(),
            final(self).map() == old(self).map().remove(old(self).entries@[i as int].chars@),
            bytes_seq(r) == bytes_seq(old(self).entries@[i as int].value),
            final(self).entries@ == old(self).entries@.remove(i as int),
            forall|j: int|
                0 <= j < i ==> text_before(
                    (#[trigger] final(self).entries@[j]).chars@,
                    old(self).entries@[i as int].chars@,
                ),
            forall|j: int|
                i <= j < final(self).entries@.len() ==> text_before(
                    old(self).entries@[i as int].chars@,
                    (#[trigger] final(self).entries@[j]).chars@,
                ),
    {
        let ghost before = self.entries@;
        let ghost was = entry_views(before);
        let ghost key = before[i as int].chars@;
        let entry = self.entries.remove(i);
        proof {
            let now = entry_views(self.entries@);
            assert(now =~= was.remove(i as int));
            assert forall|a: int, b: int|
                #![trigger now[a], now[b]]
                0 <= a < b < now.len() implies text_before(now[a].0, now[b].0) by {
                let x = if a < i {
                    a
                } else {
                    a + 1
                };
                let y = if b < i {
                    b
                } else {
                    b + 1
                };
                assert(now[a] == was[x] && now[b] == was[y]);
            }
            assert forall|j: int| 0 <= j < i implies text_before(
                (#[trigger] self.entries@[j]).chars@,
                key,
            ) by {
                assert(text_before(was[j].0, was[i as int].0));
                assert(self.entries@[j] == before[j]);
            }
            assert forall|j: int| i <= j < self.entries@.len() implies text_before(
                key,
                (#[trigger] self.entries@[j]).chars@,
            ) by {
                assert(text_before(was[i as int].0, was[j + 1].0));
                assert(self.entries@[j] == before[j + 1]);
            }
            let target = entry_map(was).remove(key);
            assert forall|k: Seq<char>|
                #![trigger entry_map(now).dom().contains(k)]
                #![trigger target.dom().contains(k)]
                entry_map(now).dom().contains(k) == target.dom().contains(k) && (
                target.dom().contains(k) ==> entry_map(now)[k] == target[k]) by {
                lemma_entry_map(was, k);
                lemma_entry_map(now, k);
                if entry_map(now).contains_key(k) {
                    let j = choose|j: int| 0 <= j < now.len() && (#[trigger] now[j]).0 == k;
                    lemma_text_before(k, key);
                    if j < i {
                        assert(was[j].0 == k);
                        assert(text_before(self.entries@[j].chars@, key));
                    } else {
                        assert(was[j + 1].0 == k);
                        assert(text_before(key, self.entries@[j].chars@));
                    }
                }
                if target.contains_key(k) {
                    let j = choose|j: int| 0 <= j < was.len() && (#[trigger] was[j]).0 == k;
                    if j < i {
                        assert(now[j].0 == k);
                    } else if j > i {
                        assert(now[j - 1].0 == k);
                    }
                }
            }
            assert(entry_map(now) =~= target);
            assert forall|j: int| 0 <= j < self.entries@.len() implies (
            #[trigger] self.entries@[j]).key@ == self.entries@[j].chars@ by {
                if j < i {
                    assert(self.entries@[j] == before[j]);
                } else {
                    assert(self.entries@[j] == before[j + 1]);
                }
            }
        }
        entry.value
    }

    pub fn get_kv(&self, key: &str) -> (r: Option<Bytes>)
        requires
            self.wf(),
        ensures
            match r {
                Some(v) => self.map().contains_key(key@) && bytes_seq(v) == self.map()[key@],
                None => !self.map().contains_key(key@),
            },
    {
        let chars = chars_of(key);
        let (i, found) = self.locate(&chars);
        if found {
            Some(bytes_clone(&self.entries[i].value))
        } else {
            None
        }
    }

    /// Delete. Returns the deleted value, `None` if the key did not exist.
    pub fn del_kv(&mut self, key: &str) -> (r: Option<Bytes>)
        requires
            old(self).wf(),
        ensures
            final(self).wf(),
            final(self).map() == old(self).map().remove(key@),
            match r {
                Some(v) => old(self).map().contains_key(key@) && bytes_seq(v)
                    == old(self).map()[key@],
                None => !old(self).map().contains_key(key@),
            },
    {
        let chars = chars_of(key);
        let (i, found) = self.locate(&chars);
        if found {
            Some(self.remove_at(i))
        } else {
            assert(self.map().remove(key@) =~= self.map());
            None
        }
    }

    /// Delete if the value matches. Returns the deleted value, `None` if missing or
    /// mismatched.
    pub fn del_kv_if(&mut self, key: &str, expected: &Bytes) -> (r: Option<Bytes>)
        requires
            old(self).wf(),
        ensures
            final(self).wf(),
            if old(self).map().contains_key(key@) && old(self).map()[key@] == bytes_seq(
                *expected,
            ) {
                &&& r matches Some(v) && bytes_seq(v) == bytes_seq(*expected)
                &&& final(self).map() == old(self).map().remove(key@)
            } else {
                r is None && final(self).map() == old(self).map()
            },
    {
        let chars = chars_of(key);
        let (i, found) = self.locate(&chars);
        if found && same_bytes(bytes_as_slice(&self.entries[i].value), bytes_as_slice(expected)) {
            Some(self.remove_at(i))
        } else {
            None
        }
    }

    /// Key-values whose keys start with `prefix`, ordered by key.
    pub fn list_kv(&self, prefix: &str) -> (r: Vec<KeyValue>)
        requires
            self.wf(),
        ensures
            forall|i: int|
                0 <= i < r@.len() ==> self.map().contains_key((#[trigger] r@[i]).key@)
                    && begins_with(r@[i].key@, prefix@) && bytes_seq(r@[i].value)
                    == self.map()[r@[i].key@],
            forall|i: int, j: int|
                #![trigger r@[i], r@[j]]
                0 <= i < j < r@.len() ==> text_before(r@[i].key@, r@[j].key@),
            forall|k: Seq<char>| #[trigger]
                self.map().contains_key(k) && begins_with(k, prefix@) ==> exists|i: int|
                    0 <= i < r@.len() && (#[trigger] r@[i]).key@ == k,
    {
        let ghost views = entry_views(self.entries@);
        let wanted = chars_of(prefix);
        let mut out: Vec<KeyValue> = Vec::new();
        let mut i: usize = 0;
        while i < self.entries.len()
            invariant
                i <= self.entries@.len(),
                self.wf(),
                views == entry_views(self.entries@),
                wanted@ == prefix@,
                forall|a: int|
                    0 <= a < out@.len() ==> self.map().contains_key((#[trigger] out@[a]).key@)
                        && begins_with(out@[a].key@, prefix@) && bytes_seq(out@[a].value)
                        == self.map()[out@[a].key@],
                forall|a: int, b: int|
                    #![trigger out@[a], out@[b]]
                    0 <= a < b < out@.len() ==> text_before(out@[a].key@, out@[b].key@),
                forall|a: int, b: int|
                    #![trigger out@[a], self.entries@[b]]
                    0 <= a < out@.len() && i <= b < self.entries@.len() ==> text_before(
                        out@[a].key@,
                        self.entries@[b].chars@,
                    ),
                forall|b: int|
                    0 <= b < i && begins_with((#[trigger] self.entries@[b]).chars@, prefix@)
                        ==> exists|a: int|
                        0 <= a < out@.len() && (#[trigger] out@[a]).key@
                            == self.entries@[b].chars@,
            decreases self.entries@.len() - i,
        {
            let ghost before = out@;
            proof {
                assert(views[i as int].0 == self.entries@[i as int].chars@);
                lemma_entry_map(views, self.entries@[i as int].chars@);
            }
            if has_prefix(&self.entries[i].chars, &wanted) {
                let e = &self.entries[i];
                out.push(KeyValue { key: e.key.clone(), value: bytes_clone(&e.value) });
                proof {
                    let last = out@[out@.len() - 1];
                    assert(last.key@ == self.entries@[i as int].chars@);
                    assert forall|a: int, b: int|
                        #![trigger out@[a], self.entries@[b]]
                        0 <= a < out@.len() && i + 1 <= b < self.entries@.len() implies text_before(
                        out@[a].key@,
                        self.entries@[b].chars@,
                    ) by {
                        if a == before.len() {
                            assert(text_before(views[i as int].0, views[b].0));
                        } else {
                            assert(out@[a] == before[a]);
                        }
                    }
                    assert forall|a: int, b: int|
                        #![trigger out@[a], out@[b]]
                        0 <= a < b < out@.len() implies text_before(out@[a].key@, out@[b].key@) by {
                        assert(out@[a] == before[a]);
                        if b < before.len() {
                            assert(out@[b] == before[b]);
                        } else {
                            assert(text_before(before[a].key@, self.entries@[i as int].chars@));
                        }
                    }
                }
            }
            proof {
                assert forall|b: int|
                    0 <= b < i + 1 && begins_with(
                        (#[trigger] self.entries@[b]).chars@,
                        prefix@,
                    ) implies exists|a: int|
                    0 <= a < out@.len() && (#[trigger] out@[a]).key@ == self.entries@[b].chars@ by {
                    if b < i {
                        let a = choose|a: int|
                            0 <= a < before.len() && (#[trigger] before[a]).key@
                                == self.entries@[b].chars@;
                        assert(out@[a] == before[a]);
                    } else {
                        assert(out@[out@.len() - 1].key@ == self.entries@[b].chars@);
                    }
                }
            }
            i += 1;
        }
        proof {
            assert forall|k: Seq<char>| #[trigger]
                self.map().contains_key(k) && begins_with(k, prefix@) implies exists|a: int|
                0 <= a < out@.len() && (#[trigger] out@[a]).key@ == k by {
                lemma_entry_map(views, k);
                let b = choose|b: int| 0 <= b < views.len() && (#[trigger] views[b]).0 == k;
                assert(self.entries@[b].chars@ == k);
            }
        }
        out
    }
}

/// Texts are ordered: of two different ones exactly one is before the other, none is before
/// itself, and a text is before everything that goes on from it.
pub proof fn law_texts_are_ordered(a: Seq<char>, b: Seq<char>)
    ensures
        a != b ==> text_before(a, b) != text_before(b, a),
        !text_before(a, a),
        begins_with(b, a) && a != b ==> text_before(a, b),
    decreases a.len(),
{
    if a.len() > 0 {
        law_texts_are_ordered(a.skip(1), a.skip(1));
    }
    if a.len() > 0 && b.len() > 0 && a[0] == b[0] {
        law_texts_are_ordered(a.skip(1), b.skip(1));
        if a.skip(1) == b.skip(1) {
            assert(a =~= seq![a[0]] + a.skip(1));
            assert(b =~= seq![b[0]] + b.skip(1));
        }
        if begins_with(b, a) {
            assert(b.take(a.len() as int) == a);
            assert(b.skip(1).take(a.len() - 1) =~= a.skip(1));
        }
    } else if a.len() == 0 && b.len() == 0 {
        assert(a =~= b);
    } else if a.len() > 0 && b.len() > 0 && begins_with(b, a) {
        assert(b.take(a.len() as int)[0] == a[0]);
    }
}

/// A text begins with a prefix exactly where it is the prefix and something behind it.
pub proof fn law_prefix_and_rest(text: Seq<char>, prefix: Seq<char>, rest: Seq<char>)
    ensures
        begins_with(prefix + rest, prefix),
        begins_with(text, prefix) ==> text == prefix + text.skip(prefix.len() as int),
{
    assert((prefix + rest).take(prefix.len() as int) =~= prefix);
    if begins_with(text, prefix) {
        assert(text =~= prefix + text.skip(prefix.len() as int));
    }
}

/// The first difference decides which text comes first: the one with the lower character there.
pub proof fn law_first_difference_decides(a: Seq<char>, b: Seq<char>, k: int)
    requires
        0 <= k < a.len(),
        k < b.len(),
        forall|i: int| 0 <= i < k ==> #[trigger] a[i] == b[i],
        a[k] < b[k],
    ensures
        text_before(a, b),
    decreases k,
{
    if k > 0 {
        assert(a[0] == b[0]);
        let x = a.skip(1);
        let y = b.skip(1);
        assert forall|i: int| 0 <= i < k - 1 implies #[trigger] x[i] == y[i] by {
            assert(a[i + 1] == b[i + 1]);
        }
        law_first_difference_decides(x, y, k - 1);
    }
}

} // verus!
