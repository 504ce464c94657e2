//! The keyboard key-state table of the global singleton: the set of keys
//! currently held down.

use vstd::prelude::*;

verus! {

/// The keys currently pressed, each listed at most once.
pub struct KeyboardState {
    pub pressed: Vec<u32>,
}

impl KeyboardState {
    /// No key is listed twice.
    pub open spec fn wf(self) -> bool {
        forall|i: int, j: int|
            0 <= i < j < self.pressed@.len()
                ==> #[trigger] self.pressed@[i] != #[trigger] self.pressed@[j]
    }

    pub open spec fn spec_key_pressed(self, key: u32) -> bool {
        self.pressed@.contains(key)
    }

    pub fn new() -> (s: KeyboardState)
        ensures
            s.wf(),
            forall|k: u32| !s.spec_key_pressed(k),
    {
        KeyboardState { pressed: Vec::new() }
    }

    fn position_of(&self, key: u32) -> (r: Option<usize>)
        ensures
            match r {
                Some(i) => i < self.pressed@.len() && self.pressed@[i as int] == key,
                None => !self.spec_key_pressed(key),
            },
    {
        let mut i: usize = 0;
        while i < self.pressed.len()
            invariant
                i <= self.pressed@.len(),
                forall|j: int| 0 <= j < i ==> self.pressed@[j] != key,
            decreases self.pressed@.len() - i,
        {
            if self.pressed[i] == key {
                return Some(i);
            }
            i = i + 1;
        }
        None
    }

    pub fn key_pressed(&self, key: u32) -> (r: bool)
        ensures
            r == self.spec_key_pressed(key),
    {
        self.position_of(key).is_some()
    }

    /// Records that `key` is now down (`pressed == true`) or up
    /// (`pressed == false`); the state of every other key is unchanged.
    pub fn set_key_state(&mut self, key: u32, pressed: bool)
        requires
            old(self).wf(),
        ensures
            final(self).wf(),
            final(self).spec_key_pressed(key) == pressed,
            forall|k: u32|
                k != key ==> #[trigger] final(self).spec_key_pressed(k)
                    == old(self).spec_key_pressed(k),
    {
        let pos = self.position_of(key);
        match pos {
            Some(i) => {
                if !pressed {
                    proof {
                        self.pressed@.remove_ensures(i as int);
                    }
                    self.pressed.remove(i);
                    proof {
                        let oldp = old(self).pressed@;
                        let newp = self.pressed@;
                        assert forall|k: u32| k != key && oldp.contains(k)
                            implies #[trigger] newp.contains(k) by {
                            let j = choose|j: int| 0 <= j < oldp.len() && oldp[j] == k;
                            if j < i {
                                assert(newp[j] == k);
                            } else {
                                assert(newp[j - 1] == k);
                            }
                        }
                        assert forall|k: u32| k != key && newp.contains(k)
                            implies #[trigger] oldp.contains(k) by {
                            let j = choose|j: int| 0 <= j < newp.len() && newp[j] == k;
                            if j < i {
                                assert(oldp[j] == k);
                            } else {
                                assert(oldp[j + 1] == k);
                            }
                        }
                        assert(!newp.contains(key)) by {
                            if newp.contains(key) {
                                let j = choose|j: int| 0 <= j < newp.len() && newp[j] == key;
                                if j < i {
                                    assert(oldp[j] == key);
                                } else {
                                    assert(oldp[j + 1] == key);
                                }
                            }
                        }
                        assert(self.wf()) by {
                            assert forall|a: int, b: int|
                                0 <= a < b < newp.len()
                                implies #[trigger] newp[a] != #[trigger] newp[b] by {
                                if b < i {
                                    assert(newp[a] == oldp[a] && newp[b] == oldp[b]);
                                } else if a < i {
                                    assert(newp[a] == oldp[a] && newp[b] == oldp[b + 1]);
                                } else {
                                    assert(newp[a] == oldp[a + 1] && newp[b] == oldp[b + 1]);
                                }
                            }
                        }
                    }
                }
            },
            None => {
                if pressed {
                    self.pressed.push(key);
                    proof {
                        let oldp = old(self).pressed@;
                        let newp = self.pressed@;
                        assert(newp.last() == key);
                        assert forall|k: u32| k != key && newp.contains(k)
                            implies #[trigger] oldp.contains(k) by {
                            let j = choose|j: int| 0 <= j < newp.len() && newp[j] == k;
                            assert(oldp[j] == k);
                        }
                        assert forall|k: u32| oldp.contains(k)
                            implies #[trigger] newp.contains(k) by {
                            let j = choose|j: int| 0 <= j < oldp.len() && oldp[j] == k;
                            assert(newp[j] == k);
                        }
                    }
                }
            },
        }
    }
}

} // verus!
