use vstd::prelude::*;

verus! {

/// A key going down or coming up, by key code.
#[derive(Clone, Copy, Debug, PartialEq, Eq, Structural)]
pub enum KeyEvent {
    Down(i32),
    Up(i32),
}

/// The state of a key after one event: (pressed this update, held).
pub open spec fn key_step(s: (bool, bool), k: i32, e: KeyEvent) -> (bool, bool) {
    match e {
        KeyEvent::Up(j) => if j == k {
            (false, false)
        } else {
            s
        },
        KeyEvent::Down(j) => if j == k {
            (!s.1, true)
        } else {
            s
        },
    }
}

/// The state of key `k` after `events`, from state `s`.
pub open spec fn key_after(s: (bool, bool), k: i32, events: Seq<KeyEvent>) -> (bool, bool)
    decreases events.len(),
{
    if events.len() == 0 {
        s
    } else {
        key_step(key_after(s, k, events.drop_last()), k, events.last())
    }
}

/// The state of key `k` in a list of (key, pressed, held) entries: its last
/// entry, or neither pressed nor held.
pub open spec fn state_in(v: Seq<(i32, bool, bool)>, k: i32) -> (bool, bool)
    decreases v.len(),
{
    if v.len() == 0 {
        (false, false)
    } else if v.last().0 == k {
        (v.last().1, v.last().2)
    } else {
        state_in(v.drop_last(), k)
    }
}

pub open spec fn keys_unique(v: Seq<(i32, bool, bool)>) -> bool {
    forall|i: int, j: int| 0 <= i < j < v.len() ==> (#[trigger] v[i]).0 != (#[trigger] v[j]).0
}

proof fn lemma_state_lookup(v: Seq<(i32, bool, bool)>, i: int)
    requires
        keys_unique(v),
        0 <= i < v.len(),
    ensures
        state_in(v, v[i].0) == (v[i].1, v[i].2),
    decreases v.len(),
{
    if i < v.len() - 1 {
        assert(v.last() == v[v.len() - 1]);
        assert(v.drop_last()[i] == v[i]);
        lemma_state_lookup(v.drop_last(), i);
    }
}

proof fn lemma_state_absent(v: Seq<(i32, bool, bool)>, k: i32)
    requires
        forall|i: int| 0 <= i < v.len() ==> (#[trigger] v[i]).0 != k,
    ensures
        state_in(v, k) == (false, false),
    decreases v.len(),
{
    if v.len() > 0 {
        assert(v.last() == v[v.len() - 1]);
        assert forall|i: int| 0 <= i < v.drop_last().len() implies (
        #[trigger] v.drop_last()[i]).0 != k by {
            assert(v.drop_last()[i] == v[i]);
        }
        lemma_state_absent(v.drop_last(), k);
    }
}

proof fn lemma_state_update(v: Seq<(i32, bool, bool)>, i: int, p: bool, h: bool, k2: i32)
    requires
        keys_unique(v),
        0 <= i < v.len(),
    ensures
        state_in(v.update(i, (v[i].0, p, h)), k2) == if k2 == v[i].0 {
            (p, h)
        } else {
            state_in(v, k2)
        },
    decreases v.len(),
{
    let w = v.update(i, (v[i].0, p, h));
    if i < v.len() - 1 {
        assert(w.drop_last() =~= v.drop_last().update(i, (v[i].0, p, h)));
        assert(w.last() == v.last());
        assert(v.last() == v[v.len() - 1]);
        assert(v.drop_last()[i] == v[i]);
        lemma_state_update(v.drop_last(), i, p, h, k2);
    } else {
        assert(w.drop_last() =~= v.drop_last());
    }
}

proof fn lemma_state_released(v: Seq<(i32, bool, bool)>, w: Seq<(i32, bool, bool)>, k: i32)
    requires
        v.len() == w.len(),
        forall|j: int| 0 <= j < v.len() ==> (#[trigger] w[j]) == (v[j].0, false, v[j].2),
    ensures
        state_in(w, k) == (false, state_in(v, k).1),
    decreases v.len(),
{
    if v.len() > 0 {
        assert(w.last() == w[w.len() - 1]);
        assert(v.last() == v[v.len() - 1]);
        assert forall|j: int| 0 <= j < v.drop_last().len() implies (#[trigger] w.drop_last()[j]) == (
        v.drop_last()[j].0, false, v.drop_last()[j].2) by {
            assert(w.drop_last()[j] == w[j]);
            assert(v.drop_last()[j] == v[j]);
        }
        lemma_state_released(v.drop_last(), w.drop_last(), k);
    }
}

/// Which keys went down this update and which are held.
pub struct Input {
    keys: Vec<(i32, bool, bool)>,
}

impl Input {
    /// The state of key `k`: (went down this update, held).
    pub closed spec fn state(&self, k: i32) -> (bool, bool) {
        state_in(self.keys@, k)
    }

    pub closed spec fn wf(&self) -> bool {
        keys_unique(self.keys@)
    }

    /// No key pressed or held.
    pub fn new() -> (r: Input)
        ensures
            r.wf(),
            forall|k: i32| #[trigger] r.state(k) == (false, false),
    {
        let r = Input { keys: Vec::new() };
        assert forall|k: i32| #[trigger] r.state(k) == (false, false) by {
            lemma_state_absent(r.keys@, k);
        }
        r
    }

    fn find(&self, key: i32) -> (r: Option<usize>)
        ensures
            match r {
                Some(i) => i < self.keys@.len() && self.keys@[i as int].0 == key,
                None => forall|i: int| 0 <= i < self.keys@.len() ==> (#[trigger] self.keys@[i]).0
                    != key,
            },
    {
        let mut i: usize = 0;
        while i < self.keys.len()
            invariant
                i <= self.keys@.len(),
                forall|j: int| 0 <= j < i ==> (#[trigger] self.keys@[j]).0 != key,
            decreases self.keys@.len() - i,
        {
            if self.keys[i].0 == key {
                return Some(i);
            }
            i += 1;
        }
        None
    }

    /// Whether `key` went down in the last update.
    pub fn key_pressed(&self, key: i32) -> (r: bool)
        requires
            self.wf(),
        ensures
            r == self.state(key).0,
    {
        match self.find(key) {
            Some(i) => {
                proof {
                    lemma_state_lookup(self.keys@, i as int);
                }
                self.keys[i].1
            },
            None => {
                proof {
                    lemma_state_absent(self.keys@, key);
                }
                false
            },
        }
    }

    /// Whether `key` is held down.
    pub fn key_held(&self, key: i32) -> (r: bool)
        requires
            self.wf(),
        ensures
            r == self.state(key).1,
    {
        match self.find(key) {
            Some(i) => {
                proof {
                    lemma_state_lookup(self.keys@, i as int);
                }
                self.keys[i].2
            },
            None => {
                proof {
                    lemma_state_absent(self.keys@, key);
                }
                false
            },
        }
    }

    /// Starts a new update: no key has gone down in it yet; then applies the
    /// events in order. A key that goes down counts as pressed unless it was
    /// held already; a key that comes up is neither pressed nor held.
    pub fn update(&mut self, events: &[KeyEvent])
        requires
            old(self).wf(),
        ensures
            final(self).wf(),
            forall|k: i32|
                #[trigger] final(self).state(k) == key_after(
                    (false, old(self).state(k).1),
                    k,
                    events@,
                ),
    {
        let ghost orig = self.keys@;
        let mut i: usize = 0;
        while i < self.keys.len()
            invariant
                keys_unique(orig),
                self.keys@.len() == orig.len(),
                i <= orig.len(),
                forall|j: int| 0 <= j < i ==> (#[trigger] self.keys@[j]) == (orig[j].0, false, orig[j].2),
                forall|j: int| i <= j < orig.len() ==> (#[trigger] self.keys@[j]) == orig[j],
            decreases orig.len() - i,
        {
            let (k, _, h) = self.keys[i];
            self.keys.set(i, (k, false, h));
            i += 1;
        }
        proof {
            assert forall|a: int, b: int| 0 <= a < b < self.keys@.len() implies (
            #[trigger] self.keys@[a]).0 != (#[trigger] self.keys@[b]).0 by {
                assert(orig[a].0 != orig[b].0);
            }
            assert forall|k: i32| #[trigger] state_in(self.keys@, k) == (false, state_in(orig, k).1) by {
                lemma_state_released(orig, self.keys@, k);
            }
        }
        let mut e: usize = 0;
        while e < events.len()
            invariant
                e <= events@.len(),
                keys_unique(self.keys@),
                forall|k: i32|
                    #[trigger] state_in(self.keys@, k) == key_after(
                        (false, state_in(orig, k).1),
                        k,
                        events@.subrange(0, e as int),
                    ),
            decreases events@.len() - e,
        {
            let ev = events[e];
            let ghost before = self.keys@;
            let key = match ev {
                KeyEvent::Down(k) => k,
                KeyEvent::Up(k) => k,
            };
            let ghost old_state = state_in(before, key);
            let next: (bool, bool) = match ev {
                KeyEvent::Up(_) => (false, false),
                KeyEvent::Down(_) => {
                    let held = match self.find(key) {
                        Some(j) => {
                            proof {
                                lemma_state_lookup(before, j as int);
                            }
                            self.keys[j].2
                        },
                        None => {
                            proof {
                                lemma_state_absent(before, key);
                            }
                            false
                        },
                    };
                    (!held, true)
                },
            };
            assert(next == key_step(old_state, key, ev));
            match self.find(key) {
                Some(j) => {
                    self.keys.set(j, (key, next.0, next.1));
                    proof {
                        assert(self.keys@ == before.update(j as int, (before[j as int].0, next.0, next.1)));
                        assert forall|k: i32| #[trigger] state_in(self.keys@, k) == if k == key {
                            next
                        } else {
                            state_in(before, k)
                        } by {
                            lemma_state_update(before, j as int, next.0, next.1, k);
                        }
                        assert forall|a: int, b: int| 0 <= a < b < self.keys@.len() implies (
                        #[trigger] self.keys@[a]).0 != (#[trigger] self.keys@[b]).0 by {
                            assert(before[a].0 != before[b].0);
                        }
                    }
                },
                None => {
                    self.keys.push((key, next.0, next.1));
                    proof {
                        assert(self.keys@.drop_last() =~= before);
                        assert forall|a: int, b: int| 0 <= a < b < self.keys@.len() implies (
                        #[trigger] self.keys@[a]).0 != (#[trigger] self.keys@[b]).0 by {
                            if b == self.keys@.len() - 1 {
                                assert(before[a].0 != key);
                            } else {
                                assert(before[a].0 != before[b].0);
                            }
                        }
                    }
                },
            }
            proof {
                let pre = events@.subrange(0, e + 1);
                assert(pre.drop_last() =~= events@.subrange(0, e as int));
                assert(pre.last() == ev);
                assert forall|k: i32| #[trigger] state_in(self.keys@, k) == key_after(
                    (false, state_in(orig, k).1),
                    k,
                    pre,
                ) by {
                    assert(state_in(self.keys@, k) == key_step(state_in(before, k), k, ev));
                }
            }
            e += 1;
        }
        proof {
            assert(events@.subrange(0, events@.len() as int) =~= events@);
        }
    }
}

} // verus!
