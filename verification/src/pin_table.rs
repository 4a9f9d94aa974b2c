//! Process-wide bookkeeping of which blocks are protected from pruning,
//! and by which subscriptions, with reference counting by holder set.

use vstd::prelude::*;

use crate::types::BlockRef;

verus! {

/// No value occurs twice in the sequence.
pub open spec fn distinct_u64(s: Seq<u64>) -> bool {
    forall|a: int, b: int| 0 <= a < b < s.len() ==> s[a] != s[b]
}

/// One pinned block together with the set of subscriptions holding it.
/// The entry exists only while the holder set is non-empty.
#[derive(Clone, Debug)]
pub struct PinEntry {
    pub block: BlockRef,
    pub subs: Vec<u64>,
}

/// The entry pins block `h` on behalf of subscription `sub`.
pub open spec fn entry_pins(e: PinEntry, sub: u64, h: u64) -> bool {
    e.block.hash == h && e.subs@.contains(sub)
}

/// Some entry of `es` pins `h` for `sub`.
pub open spec fn seq_holds(es: Seq<PinEntry>, sub: u64, h: u64) -> bool {
    exists|i: int| 0 <= i < es.len() && entry_pins(#[trigger] es[i], sub, h)
}

/// Some entry of `es` is for block `h`.
pub open spec fn seq_has_block(es: Seq<PinEntry>, h: u64) -> bool {
    exists|i: int| 0 <= i < es.len() && (#[trigger] es[i]).block.hash == h
}

/// The reference-counted table of pinned blocks.
pub struct PinTable {
    pub entries: Vec<PinEntry>,
}

impl PinTable {
    /// Subscription `sub` currently holds a pin on block `h`.
    pub open spec fn holds(self, sub: u64, h: u64) -> bool {
        seq_holds(self.entries@, sub, h)
    }

    /// Block `h` is pinned by at least one subscription.
    pub open spec fn has_block(self, h: u64) -> bool {
        seq_has_block(self.entries@, h)
    }

    /// Number of distinct pinned blocks.
    pub open spec fn num_blocks(self) -> nat {
        self.entries@.len()
    }

    /// Entries are for distinct blocks, each with a non-empty,
    /// duplicate-free holder set.
    pub open spec fn wf(self) -> bool {
        &&& forall|i: int, j: int|
            0 <= i < j < self.entries@.len()
                ==> self.entries@[i].block.hash != self.entries@[j].block.hash
        &&& forall|i: int|
            0 <= i < self.entries@.len() ==> (#[trigger] self.entries@[i]).subs@.len() > 0
        &&& forall|i: int|
            0 <= i < self.entries@.len() ==> distinct_u64((#[trigger] self.entries@[i]).subs@)
    }

    /// An empty table: nothing is pinned.
    pub fn new() -> (t: PinTable)
        ensures
            t.wf(),
            t.num_blocks() == 0,
            forall|s: u64, h: u64| !t.holds(s, h),
    {
        PinTable { entries: Vec::new() }
    }

    /// Number of distinct pinned blocks, for the global ceiling.
    pub fn len(&self) -> (n: usize)
        ensures
            n == self.num_blocks(),
    {
        self.entries.len()
    }

    /// Add `sub` to the holder set of `block`, creating the entry on first pin.
    pub fn pin(&mut self, sub: u64, block: BlockRef)
        requires
            old(self).wf(),
        ensures
            final(self).wf(),
            forall|s2: u64, h2: u64|
                final(self).holds(s2, h2) <==> (old(self).holds(s2, h2) || (s2 == sub && h2
                    == block.hash)),
            forall|h2: u64|
                final(self).has_block(h2) <==> (old(self).has_block(h2) || h2 == block.hash),
            final(self).num_blocks() == old(self).num_blocks() + (if old(self).has_block(
                block.hash,
            ) {
                0int
            } else {
                1int
            }),
    {
        let ghost old_es = self.entries@;
        let n = self.entries.len();
        let mut i: usize = 0;
        while i < n
            invariant
                n == self.entries@.len(),
                self.entries@ == old_es,
                old_es == old(self).entries@,
                *self == *old(self),
                old(self).wf(),
                0 <= i <= n,
                forall|j: int| 0 <= j < i ==> (#[trigger] self.entries@[j]).block.hash != block.hash,
            decreases n - i,
        {
            if self.entries[i].block.hash == block.hash {
                if !contains_u64(&self.entries[i].subs, sub) {
                    let mut e = self.entries.remove(i);
                    e.subs.push(sub);
                    self.entries.insert(i, e);
                    proof {
                        assert(self.entries@ =~= old_es.update(i as int, self.entries@[i as int]));
                        let ne = self.entries@[i as int];
                        assert(ne.subs@ == old_es[i as int].subs@.push(sub));
                        let os = old_es[i as int].subs@;
                        assert forall|s2: u64|
                            #[trigger] ne.subs@.contains(s2) <==> (os.contains(s2) || s2
                                == sub) by {
                            if ne.subs@.contains(s2) {
                                let k = choose|k: int|
                                    0 <= k < ne.subs@.len() && ne.subs@[k] == s2;
                                if k < os.len() {
                                    assert(os[k] == s2);
                                }
                            }
                            if os.contains(s2) {
                                let k = choose|k: int| 0 <= k < os.len() && os[k] == s2;
                                assert(ne.subs@[k] == s2);
                            }
                            assert(ne.subs@[os.len() as int] == sub);
                        }
                        assert forall|s2: u64, h2: u64| self.holds(s2, h2) implies (seq_holds(
                            old_es,
                            s2,
                            h2,
                        ) || (s2 == sub && h2 == block.hash)) by {
                            let w = choose|w: int|
                                0 <= w < self.entries@.len() && entry_pins(
                                    #[trigger] self.entries@[w],
                                    s2,
                                    h2,
                                );
                            if w != i {
                                assert(entry_pins(old_es[w], s2, h2));
                            }
                        }
                        assert forall|s2: u64, h2: u64|
                            seq_holds(old_es, s2, h2) implies self.holds(s2, h2) by {
                            let w = choose|w: int|
                                0 <= w < old_es.len() && entry_pins(#[trigger] old_es[w], s2, h2);
                            if w != i {
                                assert(entry_pins(self.entries@[w], s2, h2));
                            } else {
                                assert(entry_pins(self.entries@[i as int], s2, h2));
                            }
                        }
                        assert(entry_pins(self.entries@[i as int], sub, block.hash));
                        assert forall|h2: u64| self.has_block(h2) implies (seq_has_block(
                            old_es,
                            h2,
                        ) || h2 == block.hash) by {
                            let w = choose|w: int|
                                0 <= w < self.entries@.len() && (#[trigger] self.entries@[w]).block.hash
                                    == h2;
                            assert(old_es[w].block.hash == h2);
                        }
                        assert forall|h2: u64|
                            seq_has_block(old_es, h2) implies self.has_block(h2) by {
                            let w = choose|w: int|
                                0 <= w < old_es.len() && (#[trigger] old_es[w]).block.hash == h2;
                            assert(self.entries@[w].block.hash == h2);
                        }
                        assert(distinct_u64(os));
                        assert forall|a: int, b: int|
                            0 <= a < b < ne.subs@.len() implies ne.subs@[a] != ne.subs@[b] by {
                            if b < os.len() {
                                assert(os[a] != os[b]);
                            } else {
                                assert(ne.subs@[b] == sub);
                                assert(ne.subs@[a] == os[a]);
                                if os[a] == sub {
                                    assert(os.contains(sub));
                                }
                            }
                        }
                        assert(distinct_u64(ne.subs@));
                        assert(ne.block == old_es[i as int].block);
                    }
                } else {
                    proof {
                        assert(entry_pins(self.entries@[i as int], sub, block.hash));
                        assert(self.has_block(block.hash));
                    }
                }
                return ;
            }
            i += 1;
        }
        let mut subs: Vec<u64> = Vec::new();
        subs.push(sub);
        let e = PinEntry { block, subs };
        let ghost ge = e;
        self.entries.push(e);
        proof {
            let m = old_es.len() as int;
            assert(self.entries@ == old_es.push(ge));
            assert(!seq_has_block(old_es, block.hash)) by {
                assert(forall|j: int| 0 <= j < m ==> (#[trigger] old_es[j]).block.hash != block.hash);
            }
            assert(ge.subs@.len() == 1 && ge.subs@[0] == sub);
            assert(self.entries@[m] == ge);
            assert(ge.subs@.contains(sub));
            assert(entry_pins(self.entries@[m], sub, block.hash));
            assert forall|s2: u64, h2: u64| self.holds(s2, h2) implies (seq_holds(old_es, s2, h2)
                || (s2 == sub && h2 == block.hash)) by {
                let w = choose|w: int|
                    0 <= w < self.entries@.len() && entry_pins(#[trigger] self.entries@[w], s2, h2);
                if w < m {
                    assert(entry_pins(old_es[w], s2, h2));
                } else {
                    assert(self.entries@[w] == ge);
                    let k = choose|k: int| 0 <= k < ge.subs@.len() && ge.subs@[k] == s2;
                    assert(s2 == sub);
                }
            }
            assert forall|s2: u64, h2: u64| seq_holds(old_es, s2, h2) implies self.holds(s2, h2) by {
                let w = choose|w: int|
                    0 <= w < old_es.len() && entry_pins(#[trigger] old_es[w], s2, h2);
                assert(entry_pins(self.entries@[w], s2, h2));
            }
            assert forall|h2: u64| self.has_block(h2) implies (seq_has_block(old_es, h2) || h2
                == block.hash) by {
                let w = choose|w: int|
                    0 <= w < self.entries@.len() && (#[trigger] self.entries@[w]).block.hash == h2;
                if w < m {
                    assert(old_es[w].block.hash == h2);
                }
            }
            assert forall|h2: u64| seq_has_block(old_es, h2) implies self.has_block(h2) by {
                let w = choose|w: int| 0 <= w < old_es.len() && (#[trigger] old_es[w]).block.hash == h2;
                assert(self.entries@[w].block.hash == h2);
            }
        }
    }
}

impl PinTable {
    /// Remove `sub` from the holder set of block `h`; the entry disappears
    /// when its holder set becomes empty. Returns whether `sub` held the pin;
    /// on `false` the table is unchanged (a duplicate or mismatched unpin
    /// alters nothing).
    pub fn unpin(&mut self, sub: u64, h: u64) -> (r: bool)
        requires
            old(self).wf(),
        ensures
            final(self).wf(),
            r == old(self).holds(sub, h),
            !r ==> *final(self) == *old(self),
            r ==> forall|s2: u64, h2: u64|
                final(self).holds(s2, h2) <==> (old(self).holds(s2, h2) && !(s2 == sub && h2
                    == h)),
            final(self).num_blocks() <= old(self).num_blocks(),
    {
        let ghost old_es = self.entries@;
        let n = self.entries.len();
        let mut i: usize = 0;
        while i < n
            invariant
                n == self.entries@.len(),
                self.entries@ == old_es,
                old_es == old(self).entries@,
                *self == *old(self),
                old(self).wf(),
                0 <= i <= n,
                forall|j: int| 0 <= j < i ==> (#[trigger] self.entries@[j]).block.hash != h,
            decreases n - i,
        {
            if self.entries[i].block.hash == h {
                if !contains_u64(&self.entries[i].subs, sub) {
                    proof {
                        assert forall|w: int|
                            0 <= w < old_es.len() implies !entry_pins(
                            #[trigger] old_es[w],
                            sub,
                            h,
                        ) by {
                            if w != i {
                                assert(old_es[w].block.hash != h) by {
                                    if w > i {
                                        assert(old_es[i as int].block.hash == h);
                                    }
                                }
                            }
                        }
                    }
                    return false;
                }
                let mut e = self.entries.remove(i);
                remove_u64(&mut e.subs, sub);
                let ghost ge = e;
                if e.subs.len() > 0 {
                    self.entries.insert(i, e);
                    proof {
                        assert(self.entries@ =~= old_es.update(i as int, ge));
                    }
                } else {
                    proof {
                        assert(self.entries@ == old_es.remove(i as int));
                    }
                }
                proof {
                    let es = self.entries@;
                    assert(entry_pins(old_es[i as int], sub, h));
                    assert forall|s2: u64, h2: u64| seq_holds(es, s2, h2) implies (seq_holds(
                        old_es,
                        s2,
                        h2,
                    ) && !(s2 == sub && h2 == h)) by {
                        let w = choose|w: int|
                            0 <= w < es.len() && entry_pins(#[trigger] es[w], s2, h2);
                        if ge.subs@.len() > 0 {
                            if w == i {
                                assert(ge.subs@.contains(s2));
                                assert(old_es[i as int].subs@.contains(s2));
                                assert(entry_pins(old_es[i as int], s2, h2));
                                assert(!(s2 == sub && h2 == h));
                            } else {
                                assert(entry_pins(old_es[w], s2, h2));
                                assert(old_es[w].block.hash != h);
                            }
                        } else {
                            let w0: int = if w < i { w } else { w + 1 };
                            assert(old_es[w0] == es[w]);
                            assert(entry_pins(old_es[w0], s2, h2));
                            if h2 == h {
                                assert(old_es[w0].block.hash == h);
                                assert(w0 != i ==> old_es[w0].block.hash != old_es[
                                    i as int].block.hash);
                            }
                        }
                    }
                    assert forall|s2: u64, h2: u64|
                        seq_holds(old_es, s2, h2) && !(s2 == sub && h2 == h) implies seq_holds(
                        es,
                        s2,
                        h2,
                    ) by {
                        let w = choose|w: int|
                            0 <= w < old_es.len() && entry_pins(#[trigger] old_es[w], s2, h2);
                        if ge.subs@.len() > 0 {
                            if w == i {
                                assert(h2 == h);
                                assert(s2 != sub);
                                assert(ge.subs@.contains(s2));
                                assert(entry_pins(es[i as int], s2, h2));
                            } else {
                                assert(entry_pins(es[w], s2, h2));
                            }
                        } else {
                            if w == i {
                                assert(h2 == h && s2 != sub);
                                assert(ge.subs@.contains(s2));
                                assert(false);
                            } else {
                                let w1: int = if w < i { w } else { w - 1 };
                                assert(es[w1] == old_es[w]);
                                assert(entry_pins(es[w1], s2, h2));
                            }
                        }
                    }
                    assert(final(self).wf()) by {
                        if ge.subs@.len() > 0 {
                            assert(forall|a: int, b: int|
                                0 <= a < b < es.len() ==> es[a].block.hash != es[b].block.hash);
                        }
                    }
                }
                return true;
            }
            i += 1;
        }
        proof {
            assert forall|w: int| 0 <= w < old_es.len() implies !entry_pins(
                #[trigger] old_es[w],
                sub,
                h,
            ) by {
                assert(old_es[w].block.hash != h);
            }
        }
        false
    }

    /// Remove `sub` from every entry it belongs to, dropping entries whose
    /// holder set becomes empty. Called exactly once at session teardown.
    pub fn release_all(&mut self, sub: u64)
        requires
            old(self).wf(),
        ensures
            final(self).wf(),
            forall|s2: u64, h2: u64|
                final(self).holds(s2, h2) <==> (old(self).holds(s2, h2) && s2 != sub),
            final(self).num_blocks() <= old(self).num_blocks(),
    {
        let ghost old_es = self.entries@;
        let mut out: Vec<PinEntry> = Vec::new();
        while self.entries.len() > 0
            invariant
                old(self).wf(),
                old_es == old(self).entries@,
                self.entries@ == old_es.subrange(0, self.entries@.len() as int),
                out@.len() <= old_es.len() - self.entries@.len(),
                forall|s2: u64, h2: u64|
                    seq_holds(out@, s2, h2) <==> (s2 != sub && seq_holds(
                        old_es.skip(self.entries@.len() as int),
                        s2,
                        h2,
                    )),
                forall|h2: u64|
                    seq_has_block(out@, h2) ==> seq_has_block(
                        old_es.skip(self.entries@.len() as int),
                        h2,
                    ),
                forall|a: int, b: int|
                    0 <= a < b < out@.len() ==> out@[a].block.hash != out@[b].block.hash,
                forall|a: int| 0 <= a < out@.len() ==> (#[trigger] out@[a]).subs@.len() > 0,
                forall|a: int| 0 <= a < out@.len() ==> distinct_u64((#[trigger] out@[a]).subs@),
            decreases self.entries@.len(),
        {
            let ghost m = self.entries@.len() as int;
            let ghost pre_out = out@;
            let mut e = self.entries.pop().unwrap();
            proof {
                assert(e == old_es[m - 1]);
                assert(self.entries@ =~= old_es.subrange(0, m - 1));
                assert(distinct_u64(old_es[m - 1].subs@));
            }
            let had = remove_u64(&mut e.subs, sub);
            let ghost ge = e;
            if e.subs.len() > 0 {
                out.push(e);
            }
            proof {
                let tail = old_es.skip(m - 1);
                let old_tail = old_es.skip(m);
                assert(tail[0] == old_es[m - 1]);
                assert forall|k: int| 1 <= k < tail.len() implies tail[k] == old_tail[k - 1] by {}
                // holder-set correspondence for the new `out`
                assert(self.entries@.len() == m - 1);
                assert forall|s2: u64, h2: u64|
                    seq_holds(out@, s2, h2) <==> (s2 != sub && seq_holds(
                        old_es.skip(self.entries@.len() as int),
                        s2,
                        h2,
                    )) by {
                    assert(old_es.skip(self.entries@.len() as int) == tail);
                    if seq_holds(out@, s2, h2) {
                        let w = choose|w: int|
                            0 <= w < out@.len() && entry_pins(#[trigger] out@[w], s2, h2);
                        if w < pre_out.len() {
                            assert(entry_pins(pre_out[w], s2, h2));
                            assert(seq_holds(pre_out, s2, h2));
                            assert(s2 != sub && seq_holds(old_tail, s2, h2));
                            let v = choose|v: int|
                                0 <= v < old_tail.len() && entry_pins(
                                    #[trigger] old_tail[v],
                                    s2,
                                    h2,
                                );
                            assert(tail[v + 1] == old_tail[v]);
                            assert(entry_pins(tail[v + 1], s2, h2));
                        } else {
                            assert(out@[w] == ge);
                            assert(ge.subs@.contains(s2));
                            assert(s2 != sub);
                            assert(old_es[m - 1].subs@.contains(s2));
                            assert(entry_pins(tail[0], s2, h2));
                        }
                    }
                    if s2 != sub && seq_holds(tail, s2, h2) {
                        let w = choose|w: int|
                            0 <= w < tail.len() && entry_pins(#[trigger] tail[w], s2, h2);
                        if w == 0 {
                            assert(entry_pins(old_es[m - 1], s2, h2));
                            assert(ge.subs@.contains(s2));
                            assert(ge.subs@.len() > 0);
                            assert(out@[pre_out.len() as int] == ge);
                            assert(entry_pins(out@[pre_out.len() as int], s2, h2));
                        } else {
                            assert(old_tail[w - 1] == tail[w]);
                            assert(seq_holds(old_tail, s2, h2));
                            assert(seq_holds(pre_out, s2, h2));
                            let v = choose|v: int|
                                0 <= v < pre_out.len() && entry_pins(#[trigger] pre_out[v], s2, h2);
                            assert(entry_pins(out@[v], s2, h2));
                        }
                    }
                }
                // block correspondence and distinctness for the new `out`
                assert forall|h2: u64| seq_has_block(out@, h2) implies seq_has_block(
                    tail,
                    h2,
                ) by {
                    let w = choose|w: int|
                        0 <= w < out@.len() && (#[trigger] out@[w]).block.hash == h2;
                    if w < pre_out.len() {
                        assert(pre_out[w].block.hash == h2);
                        assert(seq_has_block(pre_out, h2));
                        assert(seq_has_block(old_tail, h2));
                        let v = choose|v: int|
                            0 <= v < old_tail.len() && (#[trigger] old_tail[v]).block.hash == h2;
                        assert(tail[v + 1].block.hash == h2);
                    } else {
                        assert(out@[w] == ge);
                        assert(tail[0].block.hash == h2);
                    }
                }
                assert(self.entries@.len() == m - 1);
                assert(old_es.skip(self.entries@.len() as int) == tail);
                assert forall|s2: u64, h2: u64|
                    seq_holds(out@, s2, h2) <==> (s2 != sub && seq_holds(
                        old_es.skip(self.entries@.len() as int),
                        s2,
                        h2,
                    )) by {
                    assert(seq_holds(out@, s2, h2) <==> (s2 != sub && seq_holds(tail, s2, h2)));
                }
                assert forall|a: int, b: int| 0 <= a < b < out@.len() implies out@[a].block.hash
                    != out@[b].block.hash by {
                    if b == pre_out.len() {
                        assert(out@[b] == ge);
                        assert(ge.block.hash == old_es[m - 1].block.hash);
                        if out@[a].block.hash == ge.block.hash {
                            assert(seq_has_block(pre_out, ge.block.hash));
                            let v = choose|v: int|
                                0 <= v < old_tail.len() && (#[trigger] old_tail[v]).block.hash
                                    == ge.block.hash;
                            assert(old_tail[v] == old_es[m + v]);
                            assert(old_es[m - 1].block.hash != old_es[m + v].block.hash);
                        }
                    }
                }
            }
        }
        self.entries = out;
        proof {
            assert(old_es.skip(0) =~= old_es);
        }
    }
}

impl PinTable {
    /// Does `sub` currently hold a pin on block `h`?
    pub fn query(&self, sub: u64, h: u64) -> (r: bool)
        ensures
            r == self.holds(sub, h),
    {
        let n = self.entries.len();
        let mut i: usize = 0;
        while i < n
            invariant
                n == self.entries@.len(),
                0 <= i <= n,
                forall|j: int| 0 <= j < i ==> !entry_pins(#[trigger] self.entries@[j], sub, h),
            decreases n - i,
        {
            if self.entries[i].block.hash == h {
                if contains_u64(&self.entries[i].subs, sub) {
                    proof {
                        assert(entry_pins(self.entries@[i as int], sub, h));
                    }
                    return true;
                }
            }
            i += 1;
        }
        false
    }

    /// Does the table reference `sub` at all?
    pub fn references(&self, sub: u64) -> (r: bool)
        ensures
            r == exists|h: u64| self.holds(sub, h),
    {
        let n = self.entries.len();
        let mut i: usize = 0;
        while i < n
            invariant
                n == self.entries@.len(),
                0 <= i <= n,
                forall|j: int| 0 <= j < i ==> !(#[trigger] self.entries@[j]).subs@.contains(sub),
            decreases n - i,
        {
            if contains_u64(&self.entries[i].subs, sub) {
                proof {
                    let h = self.entries@[i as int].block.hash;
                    assert(entry_pins(self.entries@[i as int], sub, h));
                    assert(self.holds(sub, h));
                }
                return true;
            }
            i += 1;
        }
        proof {
            assert forall|h: u64| !self.holds(sub, h) by {
                if self.holds(sub, h) {
                    let w = choose|w: int|
                        0 <= w < self.entries@.len() && entry_pins(
                            #[trigger] self.entries@[w],
                            sub,
                            h,
                        );
                }
            }
        }
        false
    }
}

/// Linear membership test on a vector of ids.
pub fn contains_u64(v: &Vec<u64>, x: u64) -> (r: bool)
    ensures
        r == v@.contains(x),
{
    let mut i: usize = 0;
    let n = v.len();
    while i < n
        invariant
            n == v@.len(),
            0 <= i <= n,
            forall|j: int| 0 <= j < i ==> v@[j] != x,
        decreases n - i,
    {
        if v[i] == x {
            return true;
        }
        i += 1;
    }
    false
}

/// Remove the one occurrence of `x` from a duplicate-free vector of ids.
/// Returns whether `x` was present; order of the rest is not preserved.
pub fn remove_u64(v: &mut Vec<u64>, x: u64) -> (r: bool)
    requires
        distinct_u64(old(v)@),
    ensures
        distinct_u64(final(v)@),
        r == old(v)@.contains(x),
        !r ==> final(v)@ == old(v)@,
        r ==> final(v)@.len() == old(v)@.len() - 1,
        forall|y: u64| final(v)@.contains(y) <==> (old(v)@.contains(y) && y != x),
{
    let n = v.len();
    let mut i: usize = 0;
    while i < n
        invariant
            n == v@.len(),
            v@ == old(v)@,
            distinct_u64(old(v)@),
            0 <= i <= n,
            forall|j: int| 0 <= j < i ==> v@[j] != x,
        decreases n - i,
    {
        if v[i] == x {
            v.swap_remove(i);
            proof {
                let ov = old(v)@;
                let nv = final(v)@;
                assert(nv =~= ov.update(i as int, ov.last()).drop_last());
                assert(ov[i as int] == x);
                assert(ov.contains(x));
                assert forall|y: u64| #[trigger] nv.contains(y) implies (ov.contains(y) && y
                    != x) by {
                    let k = choose|k: int| 0 <= k < nv.len() && nv[k] == y;
                    if k == i {
                        assert(ov[ov.len() - 1] == y);
                    } else {
                        assert(ov[k] == y);
                    }
                    assert(ov.contains(y));
                    if y == x {
                        let k2 = choose|k2: int| 0 <= k2 < nv.len() && nv[k2] == x;
                        if k2 == i {
                            assert(ov[ov.len() - 1] == x);
                            assert(i < ov.len() - 1 ==> ov[i as int] != ov[ov.len() - 1]);
                        } else {
                            assert(ov[k2] == x);
                            assert(ov[i as int] != ov[k2]);
                        }
                    }
                }
                assert forall|y: u64| ov.contains(y) && y != x implies #[trigger] nv.contains(
                    y,
                ) by {
                    let k = choose|k: int| 0 <= k < ov.len() && ov[k] == y;
                    if k < ov.len() - 1 {
                        if k == i {
                            assert(false);
                        } else {
                            assert(nv[k] == y);
                        }
                    } else {
                        if i < ov.len() - 1 {
                            assert(nv[i as int] == ov.last());
                        } else {
                            assert(k == i);
                            assert(false);
                        }
                    }
                }
                assert forall|a: int, b: int| 0 <= a < b < nv.len() implies nv[a] != nv[b] by {
                    let xa: int = if a == i { ov.len() - 1 } else { a };
                    let xb: int = if b == i { ov.len() - 1 } else { b };
                    assert(nv[a] == ov[xa] && nv[b] == ov[xb]);
                }
            }
            return true;
        }
        i += 1;
    }
    proof {
        assert(forall|j: int| 0 <= j < v@.len() ==> v@[j] != x);
    }
    false
}

} // verus!
