use crate::byteview::ByteView;
use crate::cache::Entry;
use crate::dbgetter::DbGetter;
use crate::group::Group;
use crate::peer::PeerClient;
use crate::peermanager::{KeyHasher, PeerSicker};
use std::sync::Arc;
use vstd::prelude::*;
use vstd::string::StringExecFns;

verus! {

/// No two groups share a name.
pub open spec fn names_unique<L: DbGetter, C: PeerClient, H: KeyHasher>(gs: Seq<Group<L, C, H>>) -> bool {
    forall|i: int, j: int|
        0 <= i < j < gs.len() ==> #[trigger] gs[i].spec_name() != #[trigger] gs[j].spec_name()
}

pub open spec fn has_group<L: DbGetter, C: PeerClient, H: KeyHasher>(
    gs: Seq<Group<L, C, H>>,
    name: Seq<char>,
) -> bool {
    exists|i: int| 0 <= i < gs.len() && #[trigger] gs[i].spec_name() == name
}

/// Group `g` was built from entry `k1` of `infos`, the last entry before
/// `upto` that carries its name.
pub open spec fn built_from<L: DbGetter, C: PeerClient, H: KeyHasher>(
    infos: Seq<(String, usize)>,
    upto: int,
    g: Group<L, C, H>,
) -> bool {
    exists|k1: int|
        0 <= k1 < upto && infos[k1].0@ == g.spec_name() && infos[k1].1 == g.spec_max_bytes()
            && forall|k2: int| k1 < k2 < upto ==> #[trigger] infos[k2].0@ != g.spec_name()
}

/// A group as `new` leaves it: built from an entry before `upto`, with an
/// empty cache and no picker.
pub open spec fn fresh_from<L: DbGetter, C: PeerClient, H: KeyHasher>(
    infos: Seq<(String, usize)>,
    upto: int,
    g: Group<L, C, H>,
) -> bool {
    &&& g.spec_cache() == Seq::<Entry>::empty()
    &&& g.spec_picker().is_none()
    &&& built_from(infos, upto, g)
}

/// The error for a group name that is not registered.
pub open spec fn no_such_group(name: Seq<char>) -> Seq<char> {
    "No such group: "@ + name
}

/// A registry of named groups, fixed in membership once built.
pub struct GroupManager<L: DbGetter, C: PeerClient, H: KeyHasher> {
    groups: Vec<Group<L, C, H>>,
}

impl<L: DbGetter, C: PeerClient, H: KeyHasher> View for GroupManager<L, C, H> {
    type V = Seq<Group<L, C, H>>;

    closed spec fn view(&self) -> Seq<Group<L, C, H>> {
        self.groups@
    }
}

impl<L: DbGetter, C: PeerClient, H: KeyHasher> GroupManager<L, C, H> {
    pub open spec fn wf(&self) -> bool {
        &&& names_unique(self@)
        &&& forall|i: int| 0 <= i < self@.len() ==> #[trigger] self@[i].wf()
    }

    fn find(&self, name: &str) -> (r: Option<usize>)
        requires
            self.wf(),
        ensures
            match r {
                Some(i) => i < self@.len() && self@[i as int].spec_name() == name@,
                None => !has_group(self@, name@),
            },
    {
        let n = String::from_str(name);
        let mut i: usize = 0;
        while i < self.groups.len()
            invariant
                n@ == name@,
                i <= self@.len(),
                forall|j: int| 0 <= j < i ==> #[trigger] self@[j].spec_name() != name@,
            decreases self@.len() - i,
        {
            if self.groups[i].name_eq(&n) {
                return Some(i);
            }
            i = i + 1;
        }
        None
    }

    /// One group per entry of `group_infos`, each with its own cache bound
    /// and an empty cache; a later entry with a name already seen replaces
    /// the earlier one.
    pub fn new(group_infos: Vec<(String, usize)>, db_getter: Arc<L>) -> (r: Self)
        ensures
            r.wf(),
            forall|k: int|
                0 <= k < group_infos@.len() ==> has_group(r@, #[trigger] group_infos@[k].0@),
            forall|i: int|
                0 <= i < r@.len() ==> fresh_from(group_infos@, group_infos@.len() as int, #[trigger] r@[i]),
    {
        let mut m = GroupManager { groups: Vec::new() };
        let mut k: usize = 0;
        while k < group_infos.len()
            invariant
                k <= group_infos@.len(),
                m.wf(),
                forall|k1: int| 0 <= k1 < k ==> has_group(m@, #[trigger] group_infos@[k1].0@),
                forall|i: int| 0 <= i < m@.len() ==> fresh_from(group_infos@, k as int, #[trigger] m@[i]),
            decreases group_infos@.len() - k,
        {
            let name = group_infos[k].0.clone();
            let max_bytes = group_infos[k].1;
            let g = Group::new(name.clone(), db_getter.clone(), max_bytes);
            let ghost before = m@;
            let ghost infos = group_infos@;
            assert(fresh_from(infos, k + 1, g)) by {
                assert(infos[k as int].0@ == g.spec_name());
            }
            match m.find(name.as_str()) {
                Some(i) => {
                    m.groups.set(i, g);
                    assert forall|x: int| 0 <= x < m@.len() && x != i implies #[trigger] m@[x]
                        == before[x] by {}
                    assert forall|a: int, b: int| 0 <= a < b < m@.len() implies #[trigger] m@[a].spec_name()
                        != #[trigger] m@[b].spec_name() by {
                        assert(before[a].spec_name() != before[b].spec_name());
                    }
                    assert forall|a: int| 0 <= a < m@.len() implies #[trigger] m@[a].wf() by {
                        if a != i {
                            assert(m@[a] == before[a]);
                        }
                    }
                    assert forall|k1: int| 0 <= k1 <= k implies has_group(
                        m@,
                        #[trigger] infos[k1].0@,
                    ) by {
                        if k1 < k {
                            let j = choose|j: int|
                                0 <= j < before.len() && #[trigger] before[j].spec_name()
                                    == infos[k1].0@;
                            assert(m@[j].spec_name() == infos[k1].0@);
                        } else {
                            assert(m@[i as int].spec_name() == infos[k1].0@);
                        }
                    }
                    assert forall|a: int| 0 <= a < m@.len() implies fresh_from(
                        infos,
                        k + 1,
                        #[trigger] m@[a],
                    ) by {
                        if a != i {
                            assert(m@[a] == before[a]);
                            assert(before[a].spec_name() != before[i as int].spec_name());
                            lemma_fresh_extend(infos, k as int, before[a]);
                        }
                    }
                },
                None => {
                    m.groups.push(g);
                    assert forall|a: int, b: int| 0 <= a < b < m@.len() implies #[trigger] m@[a].spec_name()
                        != #[trigger] m@[b].spec_name() by {
                        if b < before.len() {
                            assert(before[a].spec_name() != before[b].spec_name());
                        } else {
                            assert(m@[a] == before[a]);
                        }
                    }
                    assert forall|a: int| 0 <= a < m@.len() implies #[trigger] m@[a].wf() by {
                        if a < before.len() {
                            assert(m@[a] == before[a]);
                        }
                    }
                    assert forall|k1: int| 0 <= k1 <= k implies has_group(
                        m@,
                        #[trigger] infos[k1].0@,
                    ) by {
                        if k1 < k {
                            let j = choose|j: int|
                                0 <= j < before.len() && #[trigger] before[j].spec_name()
                                    == infos[k1].0@;
                            assert(m@[j].spec_name() == infos[k1].0@);
                        } else {
                            assert(m@[before.len() as int].spec_name() == infos[k1].0@);
                        }
                    }
                    assert forall|a: int| 0 <= a < m@.len() implies fresh_from(
                        infos,
                        k + 1,
                        #[trigger] m@[a],
                    ) by {
                        if a < before.len() {
                            assert(m@[a] == before[a]);
                            assert(before[a].spec_name() != infos[k as int].0@);
                            lemma_fresh_extend(infos, k as int, before[a]);
                        }
                    }
                },
            }
            k = k + 1;
        }
        m
    }

    fn missing_group(name: &str) -> (r: String)
        ensures
            r@ == no_such_group(name@),
    {
        let prefix = String::from_str("No such group: ");
        proof {
            reveal_strlit("No such group: ");
        }
        prefix.concat(name)
    }

    /// Reads `key` through the group named `group_name`.
    pub fn get(&mut self, group_name: &str, key: &str) -> (r: Result<ByteView, String>)
        requires
            old(self).wf(),
        ensures
            final(self).wf(),
            final(self)@.len() == old(self)@.len(),
            !has_group(old(self)@, group_name@) ==> r is Err && r->Err_0@ == no_such_group(
                group_name@,
            ) && final(self)@ == old(self)@,
            forall|i: int|
                0 <= i < old(self)@.len() && old(self)@[i].spec_name() == group_name@
                    ==> #[trigger] old(self)@[i].get_post(&final(self)@[i], key@, r),
            forall|j: int|
                0 <= j < old(self)@.len() && old(self)@[j].spec_name() != group_name@
                    ==> #[trigger] final(self)@[j] == old(self)@[j],
    {
        match self.find(group_name) {
            Some(i) => {
                let ghost before = self@;
                let mut g = self.groups.remove(i);
                let r = g.get(key);
                self.groups.insert(i, g);
                assert(self@ =~= before.update(i as int, g));
                assert forall|a: int, b: int| 0 <= a < b < self@.len() implies #[trigger] self@[a].spec_name()
                    != #[trigger] self@[b].spec_name() by {
                    assert(before[a].spec_name() != before[b].spec_name());
                }
                assert forall|a: int| 0 <= a < self@.len() implies #[trigger] self@[a].wf() by {
                    if a != i {
                        assert(self@[a] == before[a]);
                    }
                }
                assert forall|a: int| 0 <= a < before.len() && before[a].spec_name() == group_name@
                    implies a == i by {
                    if a != i {
                        assert(before[a].spec_name() != before[i as int].spec_name());
                    }
                }
                r
            },
            None => Err(Self::missing_group(group_name)),
        }
    }

    /// Sets the ring of the group named `group_name`.
    pub fn register_peer_for_group(&mut self, picker: Arc<PeerSicker<C, H>>, group_name: String) -> (r:
        Result<(), String>)
        requires
            old(self).wf(),
            picker.wf(),
        ensures
            final(self).wf(),
            final(self)@.len() == old(self)@.len(),
            r is Ok <==> has_group(old(self)@, group_name@),
            r is Err ==> r->Err_0@ == no_such_group(group_name@) && final(self)@ == old(self)@,
            forall|i: int|
                0 <= i < old(self)@.len() && old(self)@[i].spec_name() == group_name@ ==> {
                    &&& #[trigger] final(self)@[i].spec_picker() == Some(*picker)
                    &&& final(self)@[i].spec_name() == old(self)@[i].spec_name()
                    &&& final(self)@[i].spec_cache() == old(self)@[i].spec_cache()
                    &&& final(self)@[i].spec_max_bytes() == old(self)@[i].spec_max_bytes()
                },
            forall|j: int|
                0 <= j < old(self)@.len() && old(self)@[j].spec_name() != group_name@
                    ==> #[trigger] final(self)@[j] == old(self)@[j],
    {
        match self.find(group_name.as_str()) {
            Some(i) => {
                let ghost before = self@;
                let mut g = self.groups.remove(i);
                let r = g.register_peer(picker);
                self.groups.insert(i, g);
                assert(self@ =~= before.update(i as int, g));
                assert forall|a: int, b: int| 0 <= a < b < self@.len() implies #[trigger] self@[a].spec_name()
                    != #[trigger] self@[b].spec_name() by {
                    assert(before[a].spec_name() != before[b].spec_name());
                }
                assert forall|a: int| 0 <= a < self@.len() implies #[trigger] self@[a].wf() by {
                    if a != i {
                        assert(self@[a] == before[a]);
                    }
                }
                assert forall|a: int| 0 <= a < before.len() && before[a].spec_name() == group_name@
                    implies a == i by {
                    if a != i {
                        assert(before[a].spec_name() != before[i as int].spec_name());
                    }
                }
                assert(before[i as int].spec_name() == group_name@);
                r
            },
            None => Err(Self::missing_group(group_name.as_str())),
        }
    }
}

proof fn lemma_fresh_extend<L: DbGetter, C: PeerClient, H: KeyHasher>(
    infos: Seq<(String, usize)>,
    k: int,
    g: Group<L, C, H>,
)
    requires
        0 <= k < infos.len(),
        fresh_from(infos, k, g),
        infos[k].0@ != g.spec_name(),
    ensures
        fresh_from(infos, k + 1, g),
{
    let k1 = choose|k1: int|
        0 <= k1 < k && infos[k1].0@ == g.spec_name() && infos[k1].1 == g.spec_max_bytes()
            && forall|k2: int| k1 < k2 < k ==> #[trigger] infos[k2].0@ != g.spec_name();
    assert forall|k2: int| k1 < k2 < k + 1 implies #[trigger] infos[k2].0@ != g.spec_name() by {}
}

} // verus!
