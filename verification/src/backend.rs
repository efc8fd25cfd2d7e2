//! The in-memory store: three namespaces (scalars, hashes, sets), all keyed
//! by strings, held in concurrent maps of the dashmap crate behind trusted
//! contracts over mathematical maps and sets.
use vstd::prelude::*;

use crate::model::FrameM;
use crate::resp::RespFrame;

verus! {

#[verifier::external_type_specification]
#[verifier::external_body]
#[verifier::reject_recursive_types(K)]
#[verifier::reject_recursive_types(V)]
#[verifier::reject_recursive_types(S)]
pub struct ExDashMap<K, V, S>(dashmap::DashMap<K, V, S>);

#[verifier::external_type_specification]
#[verifier::external_body]
#[verifier::reject_recursive_types(K)]
#[verifier::reject_recursive_types(S)]
pub struct ExDashSet<K, S>(dashmap::DashSet<K, S>);

/// The map type of the scalar namespace.
pub type ScalarMap = dashmap::DashMap<String, RespFrame>;

/// The map type of the hash namespace.
pub type HashMapTable = dashmap::DashMap<String, dashmap::DashMap<String, RespFrame>>;

/// The map type of the set namespace.
pub type SetMapTable = dashmap::DashMap<String, dashmap::DashSet<String>>;

/// The scalar entries a map holds, each value as its frame model.
pub uninterp spec fn scalar_entries(m: dashmap::DashMap<String, RespFrame>) -> Map<
    Seq<char>,
    FrameM,
>;

/// The field tables a two-level hash map holds.
pub uninterp spec fn hash_entries(
    m: dashmap::DashMap<String, dashmap::DashMap<String, RespFrame>>,
) -> Map<Seq<char>, Map<Seq<char>, FrameM>>;

/// The member sets a set map holds.
pub uninterp spec fn set_entries(m: dashmap::DashMap<String, dashmap::DashSet<String>>) -> Map<
    Seq<char>,
    Set<Seq<char>>,
>;

/// Relies on dashmap::DashMap::insert: the key now maps to the value.
#[verifier::external_body]
fn dm_scal_insert(m: &mut dashmap::DashMap<String, RespFrame>, key: String, value: RespFrame)
    ensures
        scalar_entries(*final(m)) == scalar_entries(*old(m)).insert(key@, value.model()),
{
    m.insert(key, value);
}

/// Relies on dashmap::DashMap::get: the stored value for the key, if any
/// (cloned, which keeps the frame's value).
#[verifier::external_body]
fn dm_scal_get(m: &dashmap::DashMap<String, RespFrame>, key: &str) -> (r: Option<RespFrame>)
    ensures
        match r {
            Some(f) => scalar_entries(*m).contains_key(key@) && f.model() == scalar_entries(
                *m,
            )[key@],
            None => !scalar_entries(*m).contains_key(key@),
        },
{
    m.get(key).map(|v| v.value().clone())
}

/// Relies on dashmap's Entry::or_default and DashMap::insert: inserts the
/// field into the key's table (created empty if absent); returns whether the
/// field was absent before.
#[verifier::external_body]
fn dm_hash_set(
    m: &mut dashmap::DashMap<String, dashmap::DashMap<String, RespFrame>>,
    key: String,
    field: String,
    value: RespFrame,
) -> (added: bool)
    ensures
        ({
            let before = hash_entries(*old(m));
            let inner = if before.contains_key(key@) {
                before[key@]
            } else {
                Map::<Seq<char>, FrameM>::empty()
            };
            hash_entries(*final(m)) == before.insert(key@, inner.insert(field@, value.model()))
                && added == !inner.contains_key(field@)
        }),
{
    m.entry(key).or_default().insert(field, value).is_none()
}

/// Relies on dashmap::DashMap::get, twice: the stored value for the key and
/// field, if both exist (cloned, which keeps the frame's value).
#[verifier::external_body]
fn dm_hash_get(
    m: &dashmap::DashMap<String, dashmap::DashMap<String, RespFrame>>,
    key: &str,
    field: &str,
) -> (r: Option<RespFrame>)
    ensures
        ({
            let hs = hash_entries(*m);
            match r {
                Some(f) => hs.contains_key(key@) && hs[key@].contains_key(field@) && f.model()
                    == hs[key@][field@],
                None => !(hs.contains_key(key@) && hs[key@].contains_key(field@)),
            }
        }),
{
    m.get(key).and_then(|inner| inner.get(field).map(|v| v.value().clone()))
}

/// Field-and-value pairs that stand for exactly the entries of `mm`:
/// distinct fields, each present in `mm` with its value, as many as `mm` has.
pub open spec fn pairs_match(ps: Seq<(String, RespFrame)>, mm: Map<Seq<char>, FrameM>) -> bool {
    &&& mm.dom().finite()
    &&& ps.len() == mm.dom().len()
    &&& forall|i: int|
        0 <= i < ps.len() ==> mm.contains_key(#[trigger] ps[i].0@) && ps[i].1.model()
            == mm[ps[i].0@]
    &&& forall|i: int, j: int| 0 <= i < j < ps.len() ==> ps[i].0@ != ps[j].0@
}

/// Relies on dashmap::DashMap::get and Iter: all entries of the key's table,
/// each cloned, in no particular order.
#[verifier::external_body]
fn dm_hash_get_all(
    m: &dashmap::DashMap<String, dashmap::DashMap<String, RespFrame>>,
    key: &str,
) -> (r: Option<Vec<(String, RespFrame)>>)
    ensures
        ({
            let hs = hash_entries(*m);
            match r {
                Some(pairs) => hs.contains_key(key@) && pairs_match(pairs@, hs[key@]),
                None => !hs.contains_key(key@),
            }
        }),
{
    m.get(key).map(
        |inner| inner.iter().map(|kv| (kv.key().clone(), kv.value().clone())).collect(),
    )
}

/// Relies on dashmap's Entry::or_default and DashSet::insert: adds the member
/// to the key's set (created empty if absent); returns whether it was absent.
#[verifier::external_body]
fn dm_set_add(
    m: &mut dashmap::DashMap<String, dashmap::DashSet<String>>,
    key: &str,
    member: String,
) -> (added: bool)
    ensures
        ({
            let before = set_entries(*old(m));
            let old_set = if before.contains_key(key@) {
                before[key@]
            } else {
                Set::<Seq<char>>::empty()
            };
            set_entries(*final(m)) == before.insert(key@, old_set.insert(member@)) && added
                == !old_set.contains(member@)
        }),
{
    m.entry(key.to_string()).or_default().insert(member)
}

/// Relies on dashmap::DashMap::get and DashSet::contains: whether the key's
/// set holds the member.
#[verifier::external_body]
fn dm_set_contains(
    m: &dashmap::DashMap<String, dashmap::DashSet<String>>,
    key: &str,
    member: &str,
) -> (r: bool)
    ensures
        r == (set_entries(*m).contains_key(key@) && set_entries(*m)[key@].contains(member@)),
{
    m.get(key).map_or(false, |s| s.contains(member))
}

/// The shared in-memory store. Its three namespaces are independent: a key
/// lives only in the namespace it was created in, and nothing checks one
/// namespace against another.
pub struct Backend {
    map: dashmap::DashMap<String, RespFrame>,
    hmap: dashmap::DashMap<String, dashmap::DashMap<String, RespFrame>>,
    set: dashmap::DashMap<String, dashmap::DashSet<String>>,
}

impl Backend {
    /// The scalar namespace: key to frame.
    pub closed spec fn scalars(self) -> Map<Seq<char>, FrameM> {
        scalar_entries(self.map)
    }

    /// The hash namespace: key to field table.
    pub closed spec fn hashes(self) -> Map<Seq<char>, Map<Seq<char>, FrameM>> {
        hash_entries(self.hmap)
    }

    /// The set namespace: key to member set.
    pub closed spec fn sets(self) -> Map<Seq<char>, Set<Seq<char>>> {
        set_entries(self.set)
    }

    /// Every stored collection is finite.
    pub open spec fn wf(self) -> bool {
        &&& forall|k: Seq<char>|
            self.sets().contains_key(k) ==> (#[trigger] self.sets()[k]).finite()
        &&& forall|k: Seq<char>|
            self.hashes().contains_key(k) ==> (#[trigger] self.hashes()[k]).dom().finite()
    }

    /// A store with nothing in any namespace.
    /// Relies on dashmap::DashMap::new, three times: a fresh map holds
    /// nothing.
    #[verifier::external_body]
    pub fn new() -> (b: Backend)
        ensures
            b.scalars() =~= Map::empty(),
            b.hashes() =~= Map::empty(),
            b.sets() =~= Map::empty(),
            b.wf(),
    {
        Backend {
            map: dashmap::DashMap::new(),
            hmap: dashmap::DashMap::new(),
            set: dashmap::DashMap::new(),
        }
    }

    /// Overwrites the scalar for `key` unconditionally.
    pub fn set(&mut self, key: String, value: RespFrame)
        requires
            old(self).wf(),
        ensures
            final(self).scalars() == old(self).scalars().insert(key@, value.model()),
            final(self).hashes() == old(self).hashes(),
            final(self).sets() == old(self).sets(),
            final(self).wf(),
    {
        dm_scal_insert(&mut self.map, key, value);
    }

    /// The scalar stored for `key`, if any.
    pub fn get(&self, key: &str) -> (r: Option<RespFrame>)
        ensures
            match r {
                Some(f) => self.scalars().contains_key(key@) && f.model()
                    == self.scalars()[key@],
                None => !self.scalars().contains_key(key@),
            },
    {
        dm_scal_get(&self.map, key)
    }

    /// Inserts or overwrites one field of the key's hash; the result says
    /// whether the field is newly created (1) or overwritten (0).
    pub fn hset(&mut self, key: String, field: String, value: RespFrame) -> (r: i64)
        requires
            old(self).wf(),
        ensures
            ({
                let inner = if old(self).hashes().contains_key(key@) {
                    old(self).hashes()[key@]
                } else {
                    Map::<Seq<char>, FrameM>::empty()
                };
                final(self).hashes() == old(self).hashes().insert(
                    key@,
                    inner.insert(field@, value.model()),
                ) && r == if inner.contains_key(field@) {
                    0int
                } else {
                    1int
                }
            }),
            final(self).scalars() == old(self).scalars(),
            final(self).sets() == old(self).sets(),
            final(self).wf(),
    {
        let ghost kv = key@;
        let ghost fv = field@;
        let ghost old_inner = if old(self).hashes().contains_key(key@) {
            old(self).hashes()[key@]
        } else {
            Map::<Seq<char>, FrameM>::empty()
        };
        let added = dm_hash_set(&mut self.hmap, key, field, value);
        proof {
            assert forall|k: Seq<char>| final(self).hashes().contains_key(k) implies (
            #[trigger] final(self).hashes()[k]).dom().finite() by {
                if k != kv {
                    assert(old(self).hashes().contains_key(k));
                } else {
                    assert(old_inner.dom().finite());
                    assert(final(self).hashes()[kv].dom() =~= old_inner.dom().insert(fv));
                }
            }
            assert forall|k: Seq<char>| self.sets().contains_key(k) implies (
            #[trigger] self.sets()[k]).finite() by {
                assert(old(self).sets().contains_key(k));
            }
            assert(self.wf());
        }
        if added {
            1
        } else {
            0
        }
    }

    /// The frame stored for `field` in the key's hash, if both exist.
    pub fn hget(&self, key: &str, field: &str) -> (r: Option<RespFrame>)
        ensures
            match r {
                Some(f) => self.hashes().contains_key(key@) && self.hashes()[key@].contains_key(
                    field@,
                ) && f.model() == self.hashes()[key@][field@],
                None => !(self.hashes().contains_key(key@)
                    && self.hashes()[key@].contains_key(field@)),
            },
    {
        dm_hash_get(&self.hmap, key, field)
    }

    /// One looked-up value per requested field, in order: absence never
    /// shortens the result.
    pub fn hmget(&self, key: &str, fields: &Vec<String>) -> (r: Vec<Option<RespFrame>>)
        ensures
            r@.len() == fields@.len(),
            forall|i: int|
                0 <= i < fields@.len() ==> ({
                    let hit = self.hashes().contains_key(key@)
                        && self.hashes()[key@].contains_key(fields@[i]@);
                    match #[trigger] r@[i] {
                        Some(f) => hit && f.model() == self.hashes()[key@][fields@[i]@],
                        None => !hit,
                    }
                }),
    {
        let mut resp: Vec<Option<RespFrame>> = Vec::new();
        let mut k: usize = 0;
        while k < fields.len()
            invariant
                k <= fields@.len(),
                resp@.len() == k,
                forall|i: int|
                    0 <= i < k ==> ({
                        let hit = self.hashes().contains_key(key@)
                            && self.hashes()[key@].contains_key(fields@[i]@);
                        match #[trigger] resp@[i] {
                            Some(f) => hit && f.model() == self.hashes()[key@][fields@[i]@],
                            None => !hit,
                        }
                    }),
            decreases fields@.len() - k,
        {
            resp.push(dm_hash_get(&self.hmap, key, fields[k].as_str()));
            k = k + 1;
        }
        resp
    }

    /// All field-and-value pairs of the key's hash, in no particular order,
    /// or absence if the key has no hash.
    pub fn hgetall(&self, key: &str) -> (r: Option<Vec<(String, RespFrame)>>)
        ensures
            match r {
                Some(pairs) => self.hashes().contains_key(key@) && pairs_match(
                    pairs@,
                    self.hashes()[key@],
                ),
                None => !self.hashes().contains_key(key@),
            },
    {
        dm_hash_get_all(&self.hmap, key)
    }

    /// Adds each member to the key's set; the result counts the members that
    /// were not already present, duplicates within the call included once.
    pub fn sadd(&mut self, key: String, members: Vec<String>) -> (r: i64)
        requires
            old(self).wf(),
            members@.len() <= i64::MAX,
        ensures
            ({
                let old_set = if old(self).sets().contains_key(key@) {
                    old(self).sets()[key@]
                } else {
                    Set::<Seq<char>>::empty()
                };
                let new_set = old_set + members@.map_values(|s: String| s@).to_set();
                &&& (if members@.len() == 0 {
                    final(self).sets() == old(self).sets()
                } else {
                    final(self).sets() == old(self).sets().insert(key@, new_set)
                })
                &&& r == new_set.len() - old_set.len()
            }),
            final(self).scalars() == old(self).scalars(),
            final(self).hashes() == old(self).hashes(),
            final(self).wf(),
    {
        let ghost kv = key@;
        let ghost ms = members@.map_values(|s: String| s@);
        let ghost old_set = if old(self).sets().contains_key(key@) {
            old(self).sets()[key@]
        } else {
            Set::<Seq<char>>::empty()
        };
        let mut count: usize = 0;
        let mut k: usize = 0;
        proof {
            broadcast use vstd::seq_lib::seq_to_set_is_finite;

            if old(self).sets().contains_key(kv) {
                assert(old_set.finite());
            }
            assert(ms.take(0).to_set() =~= Set::<Seq<char>>::empty());
            assert(old_set + ms.take(0).to_set() =~= old_set);
        }
        while k < members.len()
            invariant
                old(self).wf(),
                k <= members@.len(),
                members@.len() <= i64::MAX,
                count <= k,
                kv == key@,
                ms == members@.map_values(|s: String| s@),
                old_set == (if old(self).sets().contains_key(kv) {
                    old(self).sets()[kv]
                } else {
                    Set::<Seq<char>>::empty()
                }),
                old_set.finite(),
                (if k == 0 {
                    self.sets() == old(self).sets()
                } else {
                    self.sets() == old(self).sets().insert(
                        kv,
                        old_set + ms.take(k as int).to_set(),
                    )
                }),
                count == (old_set + ms.take(k as int).to_set()).len() - old_set.len(),
                self.scalars() == old(self).scalars(),
                self.hashes() == old(self).hashes(),
                self.wf(),
            decreases members@.len() - k,
        {
            let ghost cur = old_set + ms.take(k as int).to_set();
            proof {
                broadcast use vstd::seq_lib::seq_to_set_is_finite;

                assert(cur.finite());
                if k == 0 {
                    assert(cur =~= old_set);
                } else {
                    assert(self.sets().contains_key(kv) && self.sets()[kv] == cur);
                }
            }
            let ghost before = set_entries(self.set);
            let member = members[k].clone();
            let ghost mv = member@;
            let added = dm_set_add(&mut self.set, key.as_str(), member);
            proof {
                assert(mv == ms[k as int]);
                let inner = if before.contains_key(kv) {
                    before[kv]
                } else {
                    Set::<Seq<char>>::empty()
                };
                assert(set_entries(self.set) == before.insert(kv, inner.insert(mv)));
                assert(added == !inner.contains(mv));
                if before.contains_key(kv) {
                    assert(inner == cur);
                } else {
                    assert(cur =~= Set::<Seq<char>>::empty());
                }
                assert(self.sets() == before.insert(kv, cur.insert(mv)));
                assert(added == !cur.contains(mv));
                assert forall|x: Seq<char>| ms.take(k + 1).to_set().contains(x) implies
                    ms.take(k as int).to_set().insert(ms[k as int]).contains(x) by {
                    let i = choose|i: int| 0 <= i < k + 1 && (#[trigger] ms.take(k + 1)[i]) == x;
                    if i < k {
                        assert(ms.take(k as int)[i] == x);
                        assert(ms.take(k as int).contains(x));
                    }
                }
                assert forall|x: Seq<char>| ms.take(k as int).to_set().insert(
                    ms[k as int],
                ).contains(x) implies ms.take(k + 1).to_set().contains(x) by {
                    if ms.take(k as int).to_set().contains(x) {
                        let i = choose|i: int| 0 <= i < k && (#[trigger] ms.take(k as int)[i]) == x;
                        assert(ms.take(k + 1)[i] == x);
                        assert(ms.take(k + 1).contains(x));
                    } else {
                        assert(ms.take(k + 1)[k as int] == x);
                        assert(ms.take(k + 1).contains(x));
                    }
                }
                assert(ms.take(k + 1).to_set() =~= ms.take(k as int).to_set().insert(
                    ms[k as int],
                ));
                assert(old_set + ms.take(k + 1).to_set() =~= cur.insert(mv));
                assert(self.sets() == old(self).sets().insert(
                    kv,
                    old_set + ms.take(k + 1).to_set(),
                )) by {
                    if k == 0 {
                        assert(before == old(self).sets());
                        assert(self.sets() == old(self).sets().insert(kv, cur.insert(mv)));
                    } else {
                        assert(before == old(self).sets().insert(kv, cur));
                        assert(old(self).sets().insert(kv, cur).insert(kv, cur.insert(mv))
                            =~= old(self).sets().insert(kv, cur.insert(mv)));
                        assert(self.sets() == old(self).sets().insert(kv, cur.insert(mv)));
                    }
                    assert(old_set + ms.take(k + 1).to_set() == cur.insert(mv));
                }
                assert(cur.insert(mv).len() == cur.len() + (if cur.contains(mv) {
                    0int
                } else {
                    1int
                }));
                assert(count + (if added {
                    1int
                } else {
                    0int
                }) == (old_set + ms.take(k + 1).to_set()).len() - old_set.len());
                assert forall|kk: Seq<char>| self.sets().contains_key(kk) implies (
                #[trigger] self.sets()[kk]).finite() by {
                    if kk != kv {
                        assert(old(self).sets().contains_key(kk));
                    }
                }
            }
            if added {
                count = count + 1;
            }
            k = k + 1;
        }
        proof {
            assert(ms.take(members@.len() as int) =~= ms);
            if members.len() == 0 {
                assert(ms.to_set() =~= Set::<Seq<char>>::empty());
                assert(old_set + ms.to_set() =~= old_set);
            }
        }
        count as i64
    }

    /// Whether the member is in the key's set: 1 when present, 0 otherwise,
    /// also when the key itself has no set.
    pub fn sismember(&self, key: &str, member: &str) -> (r: i64)
        ensures
            r == if self.sets().contains_key(key@) && self.sets()[key@].contains(member@) {
                1int
            } else {
                0int
            },
    {
        if dm_set_contains(&self.set, key, member) {
            1
        } else {
            0
        }
    }
}

} // verus!
