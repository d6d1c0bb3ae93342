//! The device registry.
//!
//! An insertion-ordered table of connected keyboards keyed by device id —
//! the position in the table is the device index clients address — plus the
//! configurations of keyboards that are known but not connected, keyed by
//! vendor and product id. A configuration leaves the pending table when its
//! keyboard appears and returns to it when the keyboard goes away.

use vstd::prelude::*;

use crate::config::Config;

verus! {

/// The pending-table key of a configuration.
pub open spec fn vidpid_key(vendor_id: u16, product_id: u16) -> u32 {
    ((vendor_id as int) * 0x10000 + product_id as int) as u32
}

/// The registry: connected keyboards in client-visible order, and the
/// configurations waiting for their keyboard to appear.
pub struct Keyboards<K> {
    items: Vec<(u64, K)>,
    pending: Vec<(u32, Config)>,
}

impl<K> Keyboards<K> {
    /// The connected keyboards with their device ids, in client-visible
    /// order.
    pub closed spec fn spec_items(&self) -> Seq<(u64, K)> {
        self.items@
    }

    /// The pending configurations with their vendor/product keys.
    pub closed spec fn spec_config_entries(&self) -> Seq<(u32, Config)> {
        self.pending@
    }

    /// The connected device ids, in client-visible order.
    pub closed spec fn spec_ids(&self) -> Seq<u64> {
        self.items@.map_values(|p: (u64, K)| p.0)
    }

    /// The pending configuration keys.
    pub closed spec fn spec_pending(&self) -> Seq<u32> {
        self.pending@.map_values(|p: (u32, Config)| p.0)
    }

    /// Device ids and pending keys are unique.
    pub closed spec fn wf(&self) -> bool {
        &&& forall|i: int, j: int|
            0 <= i < j < self.items@.len() ==> (#[trigger] self.items@[i]).0 != (
            #[trigger] self.items@[j]).0
        &&& forall|i: int, j: int|
            0 <= i < j < self.pending@.len() ==> (#[trigger] self.pending@[i]).0 != (
            #[trigger] self.pending@[j]).0
    }

    pub fn new() -> (r: Keyboards<K>)
        ensures
            r.wf(),
            r.spec_items() == Seq::<(u64, K)>::empty(),
            r.spec_config_entries() == Seq::<(u32, Config)>::empty(),
            r.spec_ids() == Seq::<u64>::empty(),
            r.spec_pending() == Seq::<u32>::empty(),
    {
        let r = Keyboards { items: Vec::new(), pending: Vec::new() };
        proof {
            assert(r.spec_items() =~= Seq::<(u64, K)>::empty());
            assert(r.spec_config_entries() =~= Seq::<(u32, Config)>::empty());
            assert(r.spec_ids() =~= Seq::<u64>::empty());
            assert(r.spec_pending() =~= Seq::<u32>::empty());
        }
        r
    }

    /// Stores a configuration for the given vendor and product id,
    /// replacing any configuration stored under the same pair.
    pub fn add_config(&mut self, vendor_id: u16, product_id: u16, config: Config)
        requires
            old(self).wf(),
        ensures
            final(self).wf(),
            final(self).spec_items() == old(self).spec_items(),
            final(self).spec_ids() == old(self).spec_ids(),
            final(self).spec_pending().contains(vidpid_key(vendor_id, product_id)),
            forall|x: u32|
                old(self).spec_pending().contains(x) ==> final(self).spec_pending().contains(x),
            ({
                let key = vidpid_key(vendor_id, product_id);
                let e0 = old(self).spec_config_entries();
                let e1 = final(self).spec_config_entries();
                &&& (old(self).spec_pending().contains(key) ==> exists|k: int|
                    0 <= k < e0.len() && (#[trigger] e0[k]).0 == key && e1 =~= e0.update(
                        k,
                        (key, config),
                    ))
                &&& (!old(self).spec_pending().contains(key) ==> e1 =~= e0.push((key, config)))
            }),
    {
        let key: u32 = (vendor_id as u32) * 0x10000 + (product_id as u32);
        let mut i: usize = 0;
        while i < self.pending.len()
            invariant
                old(self).wf(),
                i <= self.pending@.len(),
                self == old(self),
                key == vidpid_key(vendor_id, product_id),
                forall|x: int| 0 <= x < i ==> (#[trigger] self.pending@[x]).0 != key,
            decreases self.pending@.len() - i,
        {
            if self.pending[i].0 == key {
                proof {
                    assert(old(self).spec_pending()[i as int] == key);
                    assert(old(self).spec_pending().contains(key));
                }
                self.pending.set(i, (key, config));
                proof {
                    assert(self.spec_pending() =~= old(self).spec_pending());
                    assert(self.spec_ids() == old(self).spec_ids());
                    assert(self.spec_pending()[i as int] == key);
                    assert((#[trigger] old(self).spec_config_entries()[i as int]).0 == key
                        && self.spec_config_entries() =~= old(
                        self,
                    ).spec_config_entries().update(i as int, (key, config)));
                    assert forall|a: int, b: int|
                        0 <= a < b < self.pending@.len() implies (
                    #[trigger] self.pending@[a]).0 != (#[trigger] self.pending@[b]).0 by {
                        assert(old(self).pending@[a].0 != old(self).pending@[b].0);
                        if a != i && b != i {
                            assert(self.pending@[a] == old(self).pending@[a]);
                            assert(self.pending@[b] == old(self).pending@[b]);
                        }
                    }
                }
                return ;
            }
            i = i + 1;
        }
        proof {
            assert(forall|x: int|
                0 <= x < self.pending@.len() ==> (#[trigger] self.pending@[x]).0 != key);
        }
        let ghost new_entry = (key, config);
        self.pending.push((key, config));
        proof {
            assert(self.spec_config_entries() =~= old(self).spec_config_entries().push(
                new_entry,
            ));
            let n = self.pending@.len();
            assert(forall|x: int| 0 <= x < n - 1 ==> self.pending@[x] == old(self).pending@[x]);
            assert(self.pending@[n - 1].0 == key);
            assert(self.spec_ids() == old(self).spec_ids());
            assert(self.spec_pending()[n - 1] == key);
            assert(self.spec_pending().contains(key));
            assert forall|x: u32|
                old(self).spec_pending().contains(x) implies self.spec_pending().contains(x) by {
                let w = choose|w: int|
                    0 <= w < old(self).spec_pending().len() && old(self).spec_pending()[w] == x;
                assert(self.spec_pending()[w] == x);
            }
            assert forall|a: int, b: int|
                0 <= a < b < n implies (#[trigger] self.pending@[a]).0 != (
            #[trigger] self.pending@[b]).0 by {
                if b < n - 1 {
                    assert(old(self).pending@[a].0 != old(self).pending@[b].0);
                } else {
                    assert(old(self).pending@[a].0 != key);
                }
            }
        }
    }

    /// Removes and returns the configuration stored for the given vendor
    /// and product id, if any.
    pub fn take_config(&mut self, vendor_id: u16, product_id: u16) -> (r: Option<Config>)
        requires
            old(self).wf(),
        ensures
            final(self).wf(),
            final(self).spec_items() == old(self).spec_items(),
            final(self).spec_ids() == old(self).spec_ids(),
            r is Some <==> old(self).spec_pending().contains(vidpid_key(vendor_id, product_id)),
            !final(self).spec_pending().contains(vidpid_key(vendor_id, product_id)),
            ({
                let key = vidpid_key(vendor_id, product_id);
                let e0 = old(self).spec_config_entries();
                let e1 = final(self).spec_config_entries();
                &&& (r matches Some(cfg) ==> exists|k: int|
                    0 <= k < e0.len() && #[trigger] e0[k] == (key, cfg) && e1 =~= e0.remove(k))
                &&& (r is None ==> e1 == e0)
            }),
    {
        let key: u32 = (vendor_id as u32) * 0x10000 + (product_id as u32);
        let mut i: usize = 0;
        while i < self.pending.len()
            invariant
                old(self).wf(),
                i <= self.pending@.len(),
                self == old(self),
                key == vidpid_key(vendor_id, product_id),
                forall|x: int| 0 <= x < i ==> (#[trigger] self.pending@[x]).0 != key,
            decreases self.pending@.len() - i,
        {
            if self.pending[i].0 == key {
                proof {
                    assert(old(self).spec_pending()[i as int] == key);
                    assert(old(self).spec_pending().contains(key));
                }
                let (k0, cfg) = self.pending.remove(i);
                proof {
                    assert((k0, cfg) == old(self).pending@[i as int]);
                    assert(#[trigger] old(self).spec_config_entries()[i as int] == (key, cfg)
                        && self.spec_config_entries() =~= old(
                        self,
                    ).spec_config_entries().remove(i as int));
                    let n = self.pending@.len();
                    assert(forall|x: int|
                        0 <= x < i ==> self.pending@[x] == old(self).pending@[x]);
                    assert(forall|x: int|
                        i <= x < n ==> self.pending@[x] == old(self).pending@[x + 1]);
                    assert(self.spec_ids() == old(self).spec_ids());
                    assert forall|x: int| 0 <= x < n implies (#[trigger] self.spec_pending()[x])
                        != key by {
                        assert(self.spec_pending()[x] == self.pending@[x].0);
                        if x < i {
                            assert(self.pending@[x] == old(self).pending@[x]);
                        } else {
                            assert(self.pending@[x] == old(self).pending@[x + 1]);
                            assert(old(self).pending@[i as int].0 == key);
                            assert(old(self).pending@[x + 1].0 != old(self).pending@[
                                i as int].0);
                        }
                    }
                    assert(!self.spec_pending().contains(key));
                    assert forall|a: int, b: int|
                        0 <= a < b < n implies (#[trigger] self.pending@[a]).0 != (
                    #[trigger] self.pending@[b]).0 by {
                        let oa = if a < i { a } else { a + 1 };
                        let ob = if b < i { b } else { b + 1 };
                        assert(self.pending@[a] == old(self).pending@[oa]);
                        assert(self.pending@[b] == old(self).pending@[ob]);
                        assert(old(self).pending@[oa].0 != old(self).pending@[ob].0);
                    }
                }
                return Some(cfg);
            }
            i = i + 1;
        }
        proof {
            assert forall|x: int|
                0 <= x < self.spec_pending().len() implies (#[trigger] self.spec_pending()[x])
                != key by {
                assert(self.spec_pending()[x] == self.pending@[x].0);
            }
            assert(!self.spec_pending().contains(key));
            assert(!old(self).spec_pending().contains(key));
            assert(self.spec_config_entries() == old(self).spec_config_entries());
        }
        None
    }

    /// Adds a connected keyboard under its device id; a keyboard already
    /// registered under that id is replaced in place.
    pub fn insert_device(&mut self, id: u64, keyboard: K)
        requires
            old(self).wf(),
        ensures
            final(self).wf(),
            final(self).spec_config_entries() == old(self).spec_config_entries(),
            final(self).spec_pending() == old(self).spec_pending(),
            final(self).spec_ids().contains(id),
            old(self).spec_ids().contains(id) ==> final(self).spec_ids() == old(self).spec_ids(),
            ({
                let m0 = old(self).spec_items();
                let m1 = final(self).spec_items();
                &&& (old(self).spec_ids().contains(id) ==> exists|k: int|
                    0 <= k < m0.len() && (#[trigger] m0[k]).0 == id && m1 =~= m0.update(
                        k,
                        (id, keyboard),
                    ))
                &&& (!old(self).spec_ids().contains(id) ==> m1 =~= m0.push((id, keyboard)))
            }),
            !old(self).spec_ids().contains(id) ==> final(self).spec_ids() =~= old(
                self,
            ).spec_ids().push(id),
    {
        let mut i: usize = 0;
        while i < self.items.len()
            invariant
                old(self).wf(),
                i <= self.items@.len(),
                self == old(self),
                forall|x: int| 0 <= x < i ==> (#[trigger] self.items@[x]).0 != id,
            decreases self.items@.len() - i,
        {
            if self.items[i].0 == id {
                proof {
                    assert(old(self).spec_ids()[i as int] == id);
                    assert((#[trigger] old(self).spec_items()[i as int]).0 == id);
                }
                self.items.set(i, (id, keyboard));
                proof {
                    assert(self.spec_ids() =~= old(self).spec_ids());
                    assert(self.spec_pending() == old(self).spec_pending());
                    assert(old(self).spec_ids().contains(id));
                    assert(self.spec_ids()[i as int] == id);
                    assert(self.spec_items() =~= old(self).spec_items().update(
                        i as int,
                        (id, keyboard),
                    ));
                    assert forall|a: int, b: int|
                        0 <= a < b < self.items@.len() implies (#[trigger] self.items@[a]).0
                        != (#[trigger] self.items@[b]).0 by {
                        assert(old(self).items@[a].0 != old(self).items@[b].0);
                        if a != i && b != i {
                            assert(self.items@[a] == old(self).items@[a]);
                            assert(self.items@[b] == old(self).items@[b]);
                        }
                    }
                }
                return ;
            }
            i = i + 1;
        }
        proof {
            assert forall|x: int|
                0 <= x < old(self).spec_ids().len() implies (#[trigger] old(self).spec_ids()[x])
                != id by {
                assert(old(self).spec_ids()[x] == old(self).items@[x].0);
            }
            assert(!old(self).spec_ids().contains(id));
        }
        let ghost new_item = (id, keyboard);
        self.items.push((id, keyboard));
        proof {
            assert(self.spec_items() =~= old(self).spec_items().push(new_item));
            let n = self.items@.len();
            assert(forall|x: int| 0 <= x < n - 1 ==> self.items@[x] == old(self).items@[x]);
            assert(self.items@[n - 1].0 == id);
            assert(self.spec_ids() =~= old(self).spec_ids().push(id));
            assert(self.spec_pending() == old(self).spec_pending());
            assert(self.spec_ids()[n - 1] == id);
            assert(self.spec_ids().contains(id));
            assert forall|i2: int, j2: int| 0 <= i2 < j2 < n implies (
            #[trigger] self.items@[i2]).0 != (#[trigger] self.items@[j2]).0 by {
                if j2 == n - 1 {
                    assert(old(self).spec_ids()[i2] == old(self).items@[i2].0);
                }
            }
        }
    }

    /// Removes the keyboard registered under a device id; later keyboards
    /// keep their relative order.
    pub fn remove_device(&mut self, id: u64) -> (r: Option<K>)
        requires
            old(self).wf(),
        ensures
            final(self).wf(),
            final(self).spec_config_entries() == old(self).spec_config_entries(),
            final(self).spec_pending() == old(self).spec_pending(),
            r is Some <==> old(self).spec_ids().contains(id),
            !final(self).spec_ids().contains(id),
            ({
                let m0 = old(self).spec_items();
                let m1 = final(self).spec_items();
                &&& (r matches Some(kb) ==> exists|k: int|
                    0 <= k < m0.len() && #[trigger] m0[k] == (id, kb) && m1 =~= m0.remove(k))
                &&& (r is None ==> m1 == m0)
            }),
    {
        let mut i: usize = 0;
        while i < self.items.len()
            invariant
                old(self).wf(),
                i <= self.items@.len(),
                self == old(self),
                forall|x: int| 0 <= x < i ==> (#[trigger] self.items@[x]).0 != id,
            decreases self.items@.len() - i,
        {
            if self.items[i].0 == id {
                proof {
                    assert(old(self).spec_ids()[i as int] == id);
                    assert(old(self).spec_ids().contains(id));
                }
                let (id0, k) = self.items.remove(i);
                proof {
                    assert((id0, k) == old(self).items@[i as int]);
                    assert(#[trigger] old(self).spec_items()[i as int] == (id, k)
                        && self.spec_items() =~= old(self).spec_items().remove(i as int));
                    let n = self.items@.len();
                    assert(forall|x: int| 0 <= x < i ==> self.items@[x] == old(self).items@[x]);
                    assert(forall|x: int|
                        i <= x < n ==> self.items@[x] == old(self).items@[x + 1]);
                    assert(self.spec_pending() == old(self).spec_pending());
                    assert forall|x: int| 0 <= x < n implies (#[trigger] self.spec_ids()[x])
                        != id by {
                        assert(self.spec_ids()[x] == self.items@[x].0);
                        if x < i {
                            assert(self.items@[x] == old(self).items@[x]);
                        } else {
                            assert(self.items@[x] == old(self).items@[x + 1]);
                            assert(old(self).items@[i as int].0 == id);
                            assert(old(self).items@[x + 1].0 != old(self).items@[i as int].0);
                        }
                    }
                    assert(!self.spec_ids().contains(id));
                    assert forall|a: int, b: int|
                        0 <= a < b < n implies (#[trigger] self.items@[a]).0 != (
                    #[trigger] self.items@[b]).0 by {
                        let oa = if a < i { a } else { a + 1 };
                        let ob = if b < i { b } else { b + 1 };
                        assert(self.items@[a] == old(self).items@[oa]);
                        assert(self.items@[b] == old(self).items@[ob]);
                        assert(old(self).items@[oa].0 != old(self).items@[ob].0);
                    }
                }
                return Some(k);
            }
            i = i + 1;
        }
        proof {
            assert forall|x: int|
                0 <= x < self.spec_ids().len() implies (#[trigger] self.spec_ids()[x]) != id by {
                assert(self.spec_ids()[x] == self.items@[x].0);
            }
            assert(!self.spec_ids().contains(id));
        }
        None
    }

    /// The number of connected keyboards.
    pub fn device_count(&self) -> (n: usize)
        ensures
            n == self.spec_ids().len(),
    {
        self.items.len()
    }

    /// The keyboard at a client-visible device index.
    pub fn get(&self, index: usize) -> (r: Option<&K>)
        ensures
            r is Some <==> index < self.spec_items().len(),
            r matches Some(k) ==> *k == self.spec_items()[index as int].1,
    {
        if index < self.items.len() {
            Some(&self.items[index].1)
        } else {
            None
        }
    }

    /// The device id at a client-visible device index.
    pub fn id_at(&self, index: usize) -> (r: Option<u64>)
        ensures
            index < self.spec_ids().len() ==> r == Some(self.spec_ids()[index as int]),
            index >= self.spec_ids().len() ==> r is None,
    {
        if index < self.items.len() {
            Some(self.items[index].0)
        } else {
            None
        }
    }

    /// The device count equals the number of distinct connected device ids:
    /// ids are unique, so counting positions counts devices.
    pub proof fn lemma_count_is_distinct_ids(&self)
        requires
            self.wf(),
        ensures
            self.spec_ids().to_set().len() == self.spec_ids().len(),
    {
        assert forall|i: int, j: int|
            i != j && 0 <= i < self.spec_ids().len() && 0 <= j < self.spec_ids().len() implies
            self.spec_ids()[i] != self.spec_ids()[j] by {
            assert(self.spec_ids()[i] == self.items@[i].0);
            assert(self.spec_ids()[j] == self.items@[j].0);
        }
        assert(self.spec_ids().no_duplicates());
        self.spec_ids().unique_seq_to_set();
    }
}

} // verus!
