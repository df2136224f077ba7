//! Source addresses, and maps from them.

use std::collections::HashMap;

use vstd::prelude::*;

verus! {

broadcast use vstd::std_specs::hash::group_hash_axioms;

/// An IPv4 or IPv6 address, as the number that its bytes write big-endian.
#[derive(Debug, Clone, Copy, PartialEq, Eq, Structural)]
pub enum IpAddr {
    V4(u32),
    V6(u128),
}

/// Lists the keys of a map, each once.
fn listed_keys<K: Copy + Eq + std::hash::Hash, T>(map: &HashMap<K, T>) -> (keys: Vec<K>)
    requires
        vstd::std_specs::hash::obeys_key_model::<K>(),
    ensures
        keys@.no_duplicates(),
        forall|k: K| #[trigger] keys@.contains(k) <==> map@.contains_key(k),
{
    let mut keys: Vec<K> = Vec::new();
    for k in it: map.keys()
        invariant
            keys@ == it.seq().take(it.index()).unref(),
    {
        keys.push(*k);
        assert(keys@ =~= it.seq().take(it.index() + 1).unref());
    }
    proof {
        let all = vstd::std_specs::iter::IteratorSpec::remaining(
            &vstd::std_specs::hash::spec_keys_iter(map),
        );
        assert(keys@ =~= all.unref());
        assert forall|k: K| #[trigger] keys@.contains(k) <==> map@.contains_key(k) by {
            assert(all.unref().to_set().contains(k) <==> map@.dom().contains(k));
        }
        assert forall|i: int, j: int|
            0 <= i < keys@.len() && 0 <= j < keys@.len() && i != j implies keys@[i]
            != keys@[j] by {
            assert(all[i] != all[j]);
        }
    }
    keys
}

/// A map from addresses. An address of one family is never one of the other.
pub struct AddrMap<T> {
    v4: HashMap<u32, T>,
    v6: HashMap<u128, T>,
}

impl<T> View for AddrMap<T> {
    type V = Map<IpAddr, T>;

    closed spec fn view(&self) -> Map<IpAddr, T> {
        Map::new(
            |a: IpAddr|
                match a {
                    IpAddr::V4(n) => self.v4@.contains_key(n),
                    IpAddr::V6(n) => self.v6@.contains_key(n),
                },
            |a: IpAddr|
                match a {
                    IpAddr::V4(n) => self.v4@[n],
                    IpAddr::V6(n) => self.v6@[n],
                },
        )
    }
}

impl<T> AddrMap<T> {
    pub fn new() -> (map: AddrMap<T>)
        ensures
            map@ == Map::<IpAddr, T>::empty(),
    {
        let map = AddrMap { v4: HashMap::new(), v6: HashMap::new() };
        assert(map@ =~= Map::<IpAddr, T>::empty());
        map
    }

    /// How many addresses the map holds.
    pub fn len(&self) -> (count: usize)
        requires
            self@.len() <= usize::MAX,
        ensures
            count == self@.len(),
            self@.dom().finite(),
    {
        proof {
            self.lemma_len();
        }
        self.v4.len() + self.v6.len()
    }

    pub fn get(&self, addr: IpAddr) -> (value: Option<&T>)
        ensures
            value == if self@.contains_key(addr) {
                Some(&self@[addr])
            } else {
                None
            },
    {
        match addr {
            IpAddr::V4(n) => self.v4.get(&n),
            IpAddr::V6(n) => self.v6.get(&n),
        }
    }

    pub fn insert(&mut self, addr: IpAddr, value: T)
        ensures
            final(self)@ == old(self)@.insert(addr, value),
    {
        match addr {
            IpAddr::V4(n) => {
                self.v4.insert(n, value);
            },
            IpAddr::V6(n) => {
                self.v6.insert(n, value);
            },
        }
        assert(self@ =~= old(self)@.insert(addr, value));
    }

    pub fn remove(&mut self, addr: IpAddr) -> (value: Option<T>)
        ensures
            final(self)@ == old(self)@.remove(addr),
            value == if old(self)@.contains_key(addr) {
                Some(old(self)@[addr])
            } else {
                None
            },
    {
        let value = match addr {
            IpAddr::V4(n) => self.v4.remove(&n),
            IpAddr::V6(n) => self.v6.remove(&n),
        };
        assert(self@ =~= old(self)@.remove(addr));
        value
    }

    /// Lists the addresses that the map holds, each once, in no particular order.
    pub fn keys(&self) -> (keys: Vec<IpAddr>)
        ensures
            keys@.no_duplicates(),
            forall|a: IpAddr| #[trigger] keys@.contains(a) <==> self@.contains_key(a),
    {
        let v4 = listed_keys(&self.v4);
        let v6 = listed_keys(&self.v6);
        let mut keys: Vec<IpAddr> = Vec::new();
        let mut i: usize = 0;
        while i < v4.len()
            invariant
                i <= v4@.len(),
                keys@ == v4@.take(i as int).map_values(|n: u32| IpAddr::V4(n)),
            decreases v4@.len() - i,
        {
            keys.push(IpAddr::V4(v4[i]));
            i += 1;
            assert(keys@ =~= v4@.take(i as int).map_values(|n: u32| IpAddr::V4(n)));
        }
        let ghost front = v4@.map_values(|n: u32| IpAddr::V4(n));
        assert(keys@ =~= front);
        i = 0;
        while i < v6.len()
            invariant
                i <= v6@.len(),
                keys@ == front + v6@.take(i as int).map_values(|n: u128| IpAddr::V6(n)),
            decreases v6@.len() - i,
        {
            keys.push(IpAddr::V6(v6[i]));
            i += 1;
            assert(keys@ =~= front + v6@.take(i as int).map_values(|n: u128| IpAddr::V6(n)));
        }
        proof {
            let all = front + v6@.map_values(|n: u128| IpAddr::V6(n));
            assert(keys@ =~= all);
            assert forall|a: IpAddr| #[trigger] keys@.contains(a) <==> self@.contains_key(a) by {
                match a {
                    IpAddr::V4(n) => {
                        if v4@.contains(n) {
                            let k = v4@.index_of(n);
                            assert(all[k] == a);
                        }
                    },
                    IpAddr::V6(n) => {
                        if v6@.contains(n) {
                            let k = v6@.index_of(n);
                            assert(all[front.len() + k] == a);
                        }
                    },
                }
            }
        }
        keys
    }

    proof fn lemma_len(&self)
        ensures
            self@.dom().finite(),
            self@.len() == self.v4@.len() + self.v6@.len(),
    {
        let left = self.v4@.dom().map(|n: u32| IpAddr::V4(n));
        let right = self.v6@.dom().map(|n: u128| IpAddr::V6(n));
        assert forall|a: IpAddr| self@.dom().contains(a) implies left.union(right).contains(a) by {
            match a {
                IpAddr::V4(n) => assert(self.v4@.dom().contains(n)),
                IpAddr::V6(n) => assert(self.v6@.dom().contains(n)),
            }
        }
        assert(self@.dom() =~= left.union(right));
        vstd::set_lib::lemma_map_size(self.v4@.dom(), left, |n: u32| IpAddr::V4(n));
        vstd::set_lib::lemma_map_size(self.v6@.dom(), right, |n: u128| IpAddr::V6(n));
        vstd::set_lib::lemma_set_disjoint_lens(left, right);
    }
}

} // verus!
