//! Environments: one frame of name bindings plus an optional link to the
//! enclosing frame.
//!
//! Frames live in an arena (a vector of `Enviroment`); a frame refers to
//! its outer frame by index, and a closure refers to its captured frame the
//! same way.  The chain only ever points towards older frames, so lookup
//! terminates.  A frame is modelled as a `Map` from name to value
//! ([`EnvV`]); the executable store is an association list with unique
//! keys.

use vstd::prelude::*;
use crate::object::{Object, ObjV, obj_view, obj_wf, clone_object};
use crate::token::{chars_eq, clone_chars};

verus! {

/// Specification-level mirror of one frame: its bindings and the index of
/// the enclosing frame, if any.
pub struct EnvV {
    pub store: Map<Seq<char>, ObjV>,
    pub outer: Option<nat>,
}

/// One binding frame: a mapping from names to values, and the index of the
/// enclosing frame in the arena, if any.
pub struct Enviroment {
    store: Vec<(Vec<char>, Object)>,
    outer: Option<usize>,
}

/// The map an association list denotes; a later pair with the same key
/// would win, but the store keeps keys unique.
pub open spec fn store_view(s: Seq<(Vec<char>, Object)>) -> Map<Seq<char>, ObjV>
    decreases s.len(),
{
    if s.len() == 0 {
        Map::empty()
    } else {
        store_view(s.drop_last()).insert(s.last().0@, obj_view(s.last().1))
    }
}

/// No two pairs bind the same name.
pub open spec fn keys_unique(s: Seq<(Vec<char>, Object)>) -> bool {
    forall|i: int, j: int| 0 <= i < j < s.len() ==> s[i].0@ != s[j].0@
}

impl View for Enviroment {
    type V = EnvV;

    closed spec fn view(&self) -> EnvV {
        EnvV {
            store: store_view(self.store@),
            outer: match self.outer {
                Some(o) => Some(o as nat),
                None => None,
            },
        }
    }
}

/// A key bound at index `i` of a unique-key store is in the map, with that
/// value.
proof fn lemma_store_view_lookup(s: Seq<(Vec<char>, Object)>, i: int)
    requires
        keys_unique(s),
        0 <= i < s.len(),
    ensures
        store_view(s).contains_key(s[i].0@),
        store_view(s)[s[i].0@] == obj_view(s[i].1),
    decreases s.len(),
{
    if i < s.len() - 1 {
        lemma_store_view_lookup(s.drop_last(), i);
    }
}

/// A key bound by no pair is not in the map.
proof fn lemma_store_view_absent(s: Seq<(Vec<char>, Object)>, k: Seq<char>)
    requires
        forall|i: int| 0 <= i < s.len() ==> s[i].0@ != k,
    ensures
        !store_view(s).contains_key(k),
    decreases s.len(),
{
    if s.len() > 0 {
        lemma_store_view_absent(s.drop_last(), k);
    }
}

/// Replacing the pair that binds `k` updates the map at `k`.
proof fn lemma_store_view_update(s: Seq<(Vec<char>, Object)>, i: int, p: (Vec<char>, Object))
    requires
        keys_unique(s),
        0 <= i < s.len(),
        p.0@ == s[i].0@,
    ensures
        store_view(s.update(i, p)) == store_view(s).insert(p.0@, obj_view(p.1)),
    decreases s.len(),
{
    let k = p.0@;
    if i == s.len() - 1 {
        assert(s.update(i, p).drop_last() =~= s.drop_last());
        assert(store_view(s.update(i, p)) =~= store_view(s).insert(k, obj_view(p.1)));
    } else {
        let su = s.update(i, p);
        assert(su.drop_last() =~= s.drop_last().update(i, p));
        lemma_store_view_update(s.drop_last(), i, p);
        assert(su.last() == s.last());
        assert(s.last().0@ != k);
        assert(store_view(su) =~= store_view(s).insert(k, obj_view(p.1)));
    }
}

/// Looks up `name` through the chain of frames, starting at frame `idx`:
/// the current frame first, then its outer frame, and so on.
pub open spec fn spec_env_get(envs: Seq<EnvV>, idx: nat, name: Seq<char>) -> Option<ObjV>
    decreases idx,
{
    if idx >= envs.len() {
        None
    } else {
        let f = envs[idx as int];
        if f.store.contains_key(name) {
            Some(f.store[name])
        } else {
            match f.outer {
                Some(o) => if o < idx {
                    spec_env_get(envs, o, name)
                } else {
                    None
                },
                None => None,
            }
        }
    }
}

/// The frame views of an arena, element by element.
pub open spec fn envs_view(envs: Seq<Enviroment>) -> Seq<EnvV> {
    Seq::new(envs.len(), |i: int| envs[i]@)
}

/// Every value stored in the frame points into an arena of `n` frames.
pub open spec fn frame_objs_wf(f: EnvV, n: nat) -> bool {
    forall|k: Seq<char>| #[trigger] f.store.contains_key(k) ==> obj_wf(f.store[k], n)
}

/// A well-formed arena: each frame's outer link points to an older frame,
/// and every stored value points into the arena.
pub open spec fn envs_wf(es: Seq<EnvV>) -> bool {
    forall|i: int|
        0 <= i < es.len() ==> {
            &&& match (#[trigger] es[i]).outer {
                Some(o) => o < i,
                None => true,
            }
            &&& frame_objs_wf(es[i], es.len())
        }
}

/// The executable stores all keep their keys unique.
pub open spec fn arena_inv(envs: Seq<Enviroment>) -> bool {
    forall|i: int| 0 <= i < envs.len() ==> (#[trigger] envs[i]).inv()
}

/// A value found by chain lookup in a well-formed arena is well-formed.
pub proof fn lemma_env_get_wf(es: Seq<EnvV>, idx: nat, name: Seq<char>)
    requires
        envs_wf(es),
    ensures
        match spec_env_get(es, idx, name) {
            Some(o) => obj_wf(o, es.len()),
            None => true,
        },
    decreases idx,
{
    if idx < es.len() {
        let f = es[idx as int];
        if !f.store.contains_key(name) {
            match f.outer {
                Some(o) => {
                    if o < idx {
                        lemma_env_get_wf(es, o, name);
                    }
                },
                None => {},
            }
        }
    }
}

impl Enviroment {
    /// The association list behind the frame keeps its keys unique.
    pub closed spec fn inv(&self) -> bool {
        keys_unique(self.store@)
    }

    /// An empty frame with no enclosing frame.
    pub fn new() -> (r: Self)
        ensures
            r.inv(),
            r@.store == Map::<Seq<char>, ObjV>::empty(),
            r@.outer is None,
    {
        let r = Enviroment { store: Vec::new(), outer: None };
        r
    }

    /// Binds `name` to `object` in this frame, overwriting an existing
    /// binding of the same name.
    pub fn set(&mut self, name: &Vec<char>, object: Object)
        requires
            old(self).inv(),
        ensures
            final(self).inv(),
            final(self)@.store == old(self)@.store.insert(name@, object@),
            final(self)@.outer == old(self)@.outer,
    {
        let n = self.store.len();
        let mut i: usize = 0;
        while i < n
            invariant
                self == old(self),
                self.inv(),
                n == self.store.len(),
                i <= n,
                forall|j: int| 0 <= j < i ==> self.store@[j].0@ != name@,
            decreases n - i,
        {
            if chars_eq(&self.store[i].0, name) {
                let ghost s_old = self.store@;
                self.store[i] = (clone_chars(name), object);
                proof {
                    lemma_store_view_update(s_old, i as int, self.store@[i as int]);
                    assert(keys_unique(self.store@));
                }
                return ;
            }
            i += 1;
        }
        let ghost s_old = self.store@;
        self.store.push((clone_chars(name), object));
        proof {
            assert(self.store@.drop_last() =~= s_old);
            assert(keys_unique(self.store@));
        }
    }

    /// The value bound to `name` in this frame alone, if any.
    fn get_local(&self, name: &Vec<char>) -> (r: Option<&Object>)
        requires
            self.inv(),
        ensures
            match r {
                Some(o) => self@.store.contains_key(name@) && o@ == self@.store[name@],
                None => !self@.store.contains_key(name@),
            },
    {
        let n = self.store.len();
        let mut i: usize = 0;
        while i < n
            invariant
                self.inv(),
                n == self.store.len(),
                i <= n,
                forall|j: int| 0 <= j < i ==> self.store@[j].0@ != name@,
            decreases n - i,
        {
            if chars_eq(&self.store[i].0, name) {
                proof {
                    lemma_store_view_lookup(self.store@, i as int);
                }
                return Some(&self.store[i].1);
            }
            i += 1;
        }
        proof {
            lemma_store_view_absent(self.store@, name@);
        }
        None
    }

    /// Looks `name` up through the chain of frames starting at `idx`,
    /// returning a copy of the value found.
    pub fn get(envs: &Vec<Enviroment>, idx: usize, name: &Vec<char>) -> (r: Option<Object>)
        requires
            idx < envs@.len(),
            arena_inv(envs@),
            envs_wf(envs_view(envs@)),
        ensures
            match (r, spec_env_get(envs_view(envs@), idx as nat, name@)) {
                (Some(o), Some(ov)) => o@ == ov,
                (None, None) => true,
                _ => false,
            },
        decreases idx,
    {
        let frame = &envs[idx];
        let local = frame.get_local(name);
        match local {
            Some(o) => Some(clone_object(o)),
            None => {
                match frame.outer {
                    Some(o) => {
                        proof {
                            assert(envs_view(envs@)[idx as int] == envs@[idx as int]@);
                        }
                        Enviroment::get(envs, o, name)
                    },
                    None => None,
                }
            },
        }
    }

    /// Links this frame to the enclosing frame at index `env`.
    pub fn add_outer(&mut self, env: usize)
        requires
            old(self).inv(),
        ensures
            final(self).inv(),
            final(self)@.store == old(self)@.store,
            final(self)@.outer == Some(env as nat),
    {
        self.outer = Some(env);
    }
}

} // verus!
