//! The parsed device catalogue: one tag list per unit address.

use crate::tag_list::TagList;
use vstd::prelude::*;

verus! {

/// The definition of one device: its unit address and its declared tags.
pub struct DeviceDef {
    /// Device or unit address.
    pub addr: u8,
    pub tags: TagList,
}

/// Addresses appear strictly ascending, so each address occurs once.
pub open spec fn sorted_by_addr(s: Seq<DeviceDef>) -> bool {
    forall|i: int, j: int| 0 <= i < j < s.len() ==> (#[trigger] s[i]).addr < (#[trigger] s[j]).addr
}

/// Some definition in `s` has unit address `a`.
pub open spec fn has_addr(s: Seq<DeviceDef>, a: u8) -> bool {
    exists|i: int| 0 <= i < s.len() && (#[trigger] s[i]).addr == a
}

/// The device definitions, ordered by unit address; inserting a definition
/// for an address already present replaces the old one.
pub struct DeviceDefList(Vec<DeviceDef>);

impl View for DeviceDefList {
    type V = Seq<DeviceDef>;

    closed spec fn view(&self) -> Seq<DeviceDef> {
        self.0@
    }
}

impl DeviceDefList {
    pub open spec fn wf(&self) -> bool {
        sorted_by_addr(self@)
    }

    pub fn new() -> (r: DeviceDefList)
        ensures
            r@ =~= Seq::<DeviceDef>::empty(),
            r.wf(),
    {
        DeviceDefList(Vec::new())
    }

    /// Add `device`, keeping the list ordered; a definition already present
    /// under the same address is replaced.
    pub fn insert(&mut self, device: DeviceDef)
        requires
            old(self).wf(),
        ensures
            final(self).wf(),
            forall|a: u8| has_addr(final(self)@, a) <==> has_addr(old(self)@, a) || a == device.addr,
            exists|i: int|
                0 <= i < final(self)@.len() && (#[trigger] final(self)@[i]) == device,
            forall|i: int|
                0 <= i < old(self)@.len() && (#[trigger] old(self)@[i]).addr != device.addr
                    ==> final(self)@.contains(old(self)@[i]),
            forall|i: int|
                0 <= i < final(self)@.len() ==> (#[trigger] final(self)@[i]) == device
                    || old(self)@.contains(final(self)@[i]),
    {
        let ghost s0 = self@;
        let n = self.0.len();
        let mut i: usize = 0;
        loop
            invariant
                self@ == s0,
                sorted_by_addr(s0),
                n == s0.len(),
                0 <= i <= n,
                forall|t: int| 0 <= t < i ==> (#[trigger] s0[t]).addr < device.addr,
            ensures
                self@ == s0,
                0 <= i <= n,
                forall|t: int| 0 <= t < i ==> (#[trigger] s0[t]).addr < device.addr,
                i < n ==> s0[i as int].addr >= device.addr,
            decreases n - i,
        {
            if i >= n {
                break ;
            }
            if self.0[i].addr >= device.addr {
                break ;
            }
            i += 1;
        }
        let ghost da = device.addr;
        if i < self.0.len() && self.0[i].addr == device.addr {
            self.0[i] = device;
            proof {
                assert(self@[i as int] == device);
                assert forall|t: int| 0 <= t < s0.len() && t != i implies self@[t] == s0[t] by {};
                assert forall|a: u8| has_addr(self@, a) <==> (has_addr(s0, a) || a == da) by {
                    if has_addr(self@, a) {
                        let t = choose|t: int| 0 <= t < self@.len() && (#[trigger] self@[t]).addr
                            == a;
                        if t != i {
                            assert(s0[t].addr == a);
                        }
                    }
                    if has_addr(s0, a) {
                        let t = choose|t: int| 0 <= t < s0.len() && (#[trigger] s0[t]).addr == a;
                        if t == i {
                            assert(self@[t].addr == da == a);
                        } else {
                            assert(self@[t].addr == a);
                        }
                    }
                    if a == da {
                        assert(self@[i as int].addr == a);
                    }
                };
                assert forall|t: int|
                    0 <= t < s0.len() && (#[trigger] s0[t]).addr != da implies self@.contains(
                    s0[t],
                ) by {
                    assert(t != i);
                    assert(self@[t] == s0[t]);
                };
                assert forall|t: int| 0 <= t < self@.len() implies (#[trigger] self@[t]) == device
                    || s0.contains(self@[t]) by {
                    if t != i {
                        assert(self@[t] == s0[t]);
                    }
                };
            }
        } else {
            self.0.insert(i, device);
            proof {
                assert(self@ == s0.insert(i as int, device));
                assert(self@[i as int] == device);
                assert forall|t: int| 0 <= t < i implies #[trigger] self@[t] == s0[t] by {};
                assert forall|t: int| i < t < self@.len() implies #[trigger] self@[t] == s0[t
                    - 1] by {};
                assert(sorted_by_addr(self@)) by {
                    assert forall|p: int, q: int| 0 <= p < q < self@.len() implies (
                    #[trigger] self@[p]).addr < (#[trigger] self@[q]).addr by {
                        if p < i && q == i {
                            assert(s0[p].addr < da);
                        } else if p == i && q > i {
                            assert(s0[q - 1].addr >= da);
                            assert(s0[q - 1].addr != da || i == q - 1);
                            if i < s0.len() && s0[i as int].addr == da {
                                assert(false);
                            }
                            assert(s0[q - 1].addr > da || q - 1 == i);
                        } else if p < i && q > i {
                            assert(s0[p].addr < da);
                            assert(s0[q - 1].addr >= da);
                        }
                    };
                };
                assert forall|a: u8| has_addr(self@, a) <==> (has_addr(s0, a) || a == da) by {
                    if has_addr(self@, a) {
                        let t = choose|t: int| 0 <= t < self@.len() && (#[trigger] self@[t]).addr
                            == a;
                        if t < i {
                            assert(s0[t].addr == a);
                        } else if t > i {
                            assert(s0[t - 1].addr == a);
                        }
                    }
                    if has_addr(s0, a) {
                        let t = choose|t: int| 0 <= t < s0.len() && (#[trigger] s0[t]).addr == a;
                        if t < i {
                            assert(self@[t].addr == a);
                        } else {
                            assert(self@[t + 1].addr == a);
                        }
                    }
                    if a == da {
                        assert(self@[i as int].addr == a);
                    }
                };
                assert forall|t: int|
                    0 <= t < s0.len() && (#[trigger] s0[t]).addr != da implies self@.contains(
                    s0[t],
                ) by {
                    if t < i {
                        assert(self@[t] == s0[t]);
                    } else {
                        assert(self@[t + 1] == s0[t]);
                    }
                };
                assert forall|t: int| 0 <= t < self@.len() implies (#[trigger] self@[t]) == device
                    || s0.contains(self@[t]) by {
                    if t < i {
                        assert(self@[t] == s0[t]);
                    } else if t > i {
                        assert(self@[t] == s0[t - 1]);
                    }
                };
            }
        }
    }

    /// Look a device definition up by unit address.
    pub fn get(&self, addr: u8) -> (r: Option<&DeviceDef>)
        ensures
            r is Some <==> has_addr(self@, addr),
            r is Some ==> r.unwrap().addr == addr && self@.contains(*r.unwrap()),
    {
        let n = self.0.len();
        let mut i: usize = 0;
        while i < n
            invariant
                n == self@.len(),
                i <= n,
                forall|t: int| 0 <= t < i ==> (#[trigger] self@[t]).addr != addr,
            decreases n - i,
        {
            if self.0[i].addr == addr {
                assert(self@[i as int].addr == addr);
                return Some(&self.0[i]);
            }
            i += 1;
        }
        proof {
            if has_addr(self@, addr) {
                let t = choose|t: int| 0 <= t < self@.len() && (#[trigger] self@[t]).addr == addr;
                assert(false);
            }
        }
        None
    }

    /// The device definitions, in ascending unit-address order.
    pub fn devices(&self) -> (r: &Vec<DeviceDef>)
        ensures
            r@ == self@,
    {
        &self.0
    }
}

} // verus!
