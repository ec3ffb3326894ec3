use vstd::prelude::*;
use crate::link::{Link, LinkView, first_named, has_named, find_named, names_unique, put_link};
use crate::group::{LinkGroup, GroupView, link_views, lemma_put_link, lemma_remove_keeps_unique};
use crate::text::{seq_lt, str_lt, lemma_seq_lt_total, lemma_seq_lt_transitive};
use crate::pairs::{pairs_to_map, keys_unique, has_key, lemma_pairs_to_map, lemma_pairs_update,
    lemma_pairs_push, lemma_pairs_remove, lemma_pairs_insert};

verus! {

/// What a store is, mathematically: the command directory, which priority is
/// active under each group name, the standalone links in order, and under each
/// group name its groups keyed by priority.
pub ghost struct StoreView {
    pub cmd_dir: Seq<char>,
    pub active: Map<Seq<char>, u64>,
    pub links: Seq<LinkView>,
    pub groups: Map<Seq<char>, Map<u64, GroupView>>,
}

/// A list of groups as (priority, group) pairs.
pub open spec fn priority_pairs(list: Seq<LinkGroup>) -> Seq<(u64, GroupView)> {
    list.map_values(|g: LinkGroup| (g.priority, g@))
}

/// A list of groups keyed by priority.
pub open spec fn priority_map(list: Seq<LinkGroup>) -> Map<u64, GroupView> {
    pairs_to_map(priority_pairs(list))
}

/// The group lists of a store as (name, groups by priority) pairs.
pub open spec fn group_pairs(m: Seq<(String, Vec<LinkGroup>)>) -> Seq<(Seq<char>, Map<u64, GroupView>)> {
    m.map_values(|e: (String, Vec<LinkGroup>)| (e.0@, priority_map(e.1@)))
}

/// The active selections of a store as (name, priority) pairs.
pub open spec fn active_pairs(a: Seq<(String, u64)>) -> Seq<(Seq<char>, u64)> {
    a.map_values(|e: (String, u64)| (e.0@, e.1))
}

/// The groups held under `name`, none if the name is unknown.
pub open spec fn groups_named(v: StoreView, name: Seq<char>) -> Map<u64, GroupView> {
    if v.groups.contains_key(name) {
        v.groups[name]
    } else {
        Map::empty()
    }
}

/// `q` is the smallest priority of `m` that is at least `pri`.
pub open spec fn is_closest(m: Map<u64, GroupView>, pri: u64, q: u64) -> bool {
    &&& m.contains_key(q)
    &&& q >= pri
    &&& forall|o: u64| #[trigger] m.contains_key(o) && o >= pri ==> q <= o
}

/// `q` is the largest priority of `m`.
pub open spec fn is_highest(m: Map<u64, GroupView>, q: u64) -> bool {
    &&& m.contains_key(q)
    &&& forall|o: u64| #[trigger] m.contains_key(o) ==> o <= q
}

/// A group list is well formed under `name`: every group carries that name
/// and is well formed, and no two share a priority.
pub open spec fn list_wf(name: Seq<char>, list: Seq<LinkGroup>) -> bool {
    &&& keys_unique(priority_pairs(list))
    &&& forall|j: int| 0 <= j < list.len() ==> (#[trigger] list[j]).name@ == name
    &&& forall|j: int| 0 <= j < list.len() ==> (#[trigger] list[j]).wf()
}

/// The keys of `s` strictly increase in character order.
pub open spec fn names_ascending<V>(s: Seq<(Seq<char>, V)>) -> bool {
    forall|i: int, j: int| 0 <= i < j < s.len() ==> seq_lt(s[i].0, s[j].0)
}

/// Inserting a key at its place keeps the keys ascending.
proof fn lemma_ascending_insert<V>(s: Seq<(Seq<char>, V)>, k: int, x: (Seq<char>, V))
    requires
        names_ascending(s),
        0 <= k <= s.len(),
        forall|j: int| 0 <= j < k ==> seq_lt((#[trigger] s[j]).0, x.0),
        forall|j: int| k <= j < s.len() ==> seq_lt(x.0, (#[trigger] s[j]).0),
    ensures
        names_ascending(s.insert(k, x)),
{
    let u = s.insert(k, x);
    assert forall|i: int, j: int| 0 <= i < j < u.len() implies seq_lt(u[i].0, u[j].0) by {
        if i < k && j == k {
        } else if i == k {
            assert(u[j] == s[j - 1]);
        } else if j < k {
            assert(u[i] == s[i] && u[j] == s[j]);
        } else if i < k {
            assert(u[i] == s[i] && u[j] == s[j - 1]);
        } else {
            assert(u[i] == s[i - 1] && u[j] == s[j - 1]);
        }
    }
}

/// Dropping a pair keeps the keys ascending.
proof fn lemma_ascending_remove<V>(s: Seq<(Seq<char>, V)>, k: int)
    requires
        names_ascending(s),
        0 <= k < s.len(),
    ensures
        names_ascending(s.remove(k)),
{
    let u = s.remove(k);
    assert forall|i: int, j: int| 0 <= i < j < u.len() implies seq_lt(u[i].0, u[j].0) by {
        let i1 = if i < k { i } else { i + 1 };
        let j1 = if j < k { j } else { j + 1 };
        assert(u[i] == s[i1] && u[j] == s[j1]);
    }
}

/// Replacing a value under the same key keeps the keys ascending.
proof fn lemma_ascending_update<V>(s: Seq<(Seq<char>, V)>, k: int, v: V)
    requires
        names_ascending(s),
        0 <= k < s.len(),
    ensures
        names_ascending(s.update(k, (s[k].0, v))),
{
    let u = s.update(k, (s[k].0, v));
    assert forall|i: int, j: int| 0 <= i < j < u.len() implies seq_lt(u[i].0, u[j].0) by {
        assert(u[i].0 == s[i].0 && u[j].0 == s[j].0);
    }
}

/// Where `name`, held by no pair of `v`, goes to keep the names ascending.
fn name_slot<V>(v: &Vec<(String, V)>, name: &String) -> (k: usize)
    requires
        forall|i: int, j: int| 0 <= i < j < v@.len() ==> seq_lt(v@[i].0@, v@[j].0@),
        forall|i: int| 0 <= i < v@.len() ==> (#[trigger] v@[i]).0@ != name@,
    ensures
        k <= v@.len(),
        forall|j: int| 0 <= j < k ==> seq_lt((#[trigger] v@[j]).0@, name@),
        forall|j: int| k <= j < v@.len() ==> seq_lt(name@, (#[trigger] v@[j]).0@),
{
    let mut k: usize = 0;
    while k < v.len() && str_lt(v[k].0.as_str(), name.as_str())
        invariant
            k <= v@.len(),
            forall|i: int, j: int| 0 <= i < j < v@.len() ==> seq_lt(v@[i].0@, v@[j].0@),
            forall|i: int| 0 <= i < v@.len() ==> (#[trigger] v@[i]).0@ != name@,
            forall|j: int| 0 <= j < k ==> seq_lt((#[trigger] v@[j]).0@, name@),
        decreases v.len() - k,
    {
        k = k + 1;
    }
    proof {
        if k < v@.len() {
            lemma_seq_lt_total(v@[k as int].0@, name@);
            assert forall|j: int| k <= j < v@.len() implies seq_lt(name@, (#[trigger] v@[j]).0@) by {
                if j > k {
                    lemma_seq_lt_transitive(name@, v@[k as int].0@, v@[j].0@);
                }
            }
        }
    }
    k
}

/// The groups of `list` come in strictly descending order of priority.
pub open spec fn sorted_desc(list: Seq<LinkGroup>) -> bool {
    forall|i: int, j: int| 0 <= i < j < list.len() ==> (#[trigger] list[i]).priority > (
    #[trigger] list[j]).priority
}

/// Facts about a group list seen as a map from priority to group.
pub proof fn lemma_priority_map(list: Seq<LinkGroup>)
    ensures
        forall|q: u64| #[trigger] priority_map(list).contains_key(q) <==> exists|j: int|
            0 <= j < list.len() && (#[trigger] list[j]).priority == q,
        keys_unique(priority_pairs(list)) ==> forall|j: int|
            0 <= j < list.len() ==> #[trigger] priority_map(list)[list[j].priority] == list[j]@,
{
    let pp = priority_pairs(list);
    lemma_pairs_to_map(pp);
    assert forall|q: u64| #[trigger] priority_map(list).contains_key(q) <==> exists|j: int|
        0 <= j < list.len() && (#[trigger] list[j]).priority == q by {
        if priority_map(list).contains_key(q) {
            let j = choose|j: int| 0 <= j < pp.len() && #[trigger] pp[j].0 == q;
            assert(list[j].priority == q);
        }
        if exists|j: int| 0 <= j < list.len() && (#[trigger] list[j]).priority == q {
            let j = choose|j: int| 0 <= j < list.len() && (#[trigger] list[j]).priority == q;
            assert(pp[j].0 == q);
        }
    }
    if keys_unique(pp) {
        assert forall|j: int| 0 <= j < list.len() implies #[trigger] priority_map(list)[list[j].priority]
            == list[j]@ by {
            assert(pp[j] == (list[j].priority, list[j]@));
            assert(pairs_to_map(pp)[pp[j].0] == pp[j].1);
        }
    }
}

/// The configuration of the whole manager: the command directory, the
/// standalone links, the groups by name, and which group is active per name.
#[derive(Debug)]
pub struct Config {
    pub config_map: Vec<(String, Vec<LinkGroup>)>,
    pub active_configs: Vec<(String, u64)>,
    pub links: Vec<Link>,
    pub cmd_dir_str: String,
}

impl View for Config {
    type V = StoreView;

    open spec fn view(&self) -> StoreView {
        StoreView {
            cmd_dir: self.cmd_dir_str@,
            active: pairs_to_map(active_pairs(self.active_configs@)),
            links: link_views(self.links@),
            groups: pairs_to_map(group_pairs(self.config_map@)),
        }
    }
}

impl Config {
    /// Group names are unique and ascending, each list is well formed under
    /// its name and in descending order of priority, and each name has at most
    /// one active priority, the active entries ascending by name; no two
    /// standalone links share a name.
    pub open spec fn wf(&self) -> bool {
        &&& keys_unique(group_pairs(self.config_map@))
        &&& forall|i: int|
            0 <= i < self.config_map@.len() ==> list_wf(
                (#[trigger] self.config_map@[i]).0@,
                self.config_map@[i].1@,
            )
        &&& keys_unique(active_pairs(self.active_configs@))
        &&& names_ascending(group_pairs(self.config_map@))
        &&& names_ascending(active_pairs(self.active_configs@))
        &&& self.lists_sorted()
        &&& names_unique(link_views(self.links@))
    }

    /// Every group list is in strictly descending order of priority.
    pub open spec fn lists_sorted(&self) -> bool {
        forall|i: int| 0 <= i < self.config_map@.len() ==> sorted_desc((#[trigger] self.config_map@[i]).1@)
    }

    /// The list at position `i` is what the view holds under its name.
    proof fn lemma_group_at(&self, i: int)
        requires
            self.wf(),
            0 <= i < self.config_map@.len(),
        ensures
            self@.groups.contains_key(self.config_map@[i].0@),
            self@.groups[self.config_map@[i].0@] == priority_map(self.config_map@[i].1@),
            groups_named(self@, self.config_map@[i].0@) == priority_map(self.config_map@[i].1@),
    {
        let gp = group_pairs(self.config_map@);
        lemma_pairs_to_map(gp);
        assert(gp[i] == (self.config_map@[i].0@, priority_map(self.config_map@[i].1@)));
        assert(has_key(gp, gp[i].0));
        assert(pairs_to_map(gp)[gp[i].0] == gp[i].1);
    }

    /// A name held by no list is absent from the view.
    proof fn lemma_group_absent(&self, name: Seq<char>)
        requires
            !has_key(group_pairs(self.config_map@), name),
        ensures
            !self@.groups.contains_key(name),
            groups_named(self@, name) == Map::<u64, GroupView>::empty(),
    {
        lemma_pairs_to_map(group_pairs(self.config_map@));
    }

    pub fn new(cmd_dir: String) -> (r: Config)
        ensures
            r.wf(),
            r.lists_sorted(),
            r@ == (StoreView {
                cmd_dir: cmd_dir@,
                active: Map::empty(),
                links: Seq::empty(),
                groups: Map::empty(),
            }),
    {
        let r = Config {
            config_map: Vec::new(),
            active_configs: Vec::new(),
            links: Vec::new(),
            cmd_dir_str: cmd_dir,
        };
        assert(r@.links =~= Seq::<LinkView>::empty());
        r
    }

    /// The command directory as written, possibly relative.
    pub fn cmd_dir_str(&self) -> (r: &String)
        ensures
            r@ == self@.cmd_dir,
    {
        &self.cmd_dir_str
    }

    pub fn set_cmd_dir_str(&mut self, val: String)
        requires
            old(self).wf(),
        ensures
            final(self).wf(),
            final(self)@ == (StoreView { cmd_dir: val@, ..old(self)@ }),
            final(self).config_map == old(self).config_map,
    {
        self.cmd_dir_str = val;
    }

    /// The position of the list held under `name`.
    fn find_group_name(&self, name: &String) -> (r: Option<usize>)
        ensures
            match r {
                Some(i) => i < self.config_map@.len() && self.config_map@[i as int].0@ == name@,
                None => !has_key(group_pairs(self.config_map@), name@),
            },
    {
        let mut i: usize = 0;
        while i < self.config_map.len()
            invariant
                i <= self.config_map@.len(),
                forall|j: int| 0 <= j < i ==> (#[trigger] self.config_map@[j]).0@ != name@,
            decreases self.config_map.len() - i,
        {
            if self.config_map[i].0 == *name {
                return Some(i);
            }
            i = i + 1;
        }
        proof {
            let gp = group_pairs(self.config_map@);
            assert forall|j: int| 0 <= j < gp.len() implies #[trigger] gp[j].0 != name@ by {
                assert(gp[j].0 == self.config_map@[j].0@);
            }
        }
        None
    }

    /// Adds a group unless one with the same name and priority is already
    /// held, in which case nothing changes; tells whether it was added.
    pub fn insert_config_entry(&mut self, entry: LinkGroup) -> (r: bool)
        requires
            old(self).wf(),
            entry.wf(),
        ensures
            final(self).wf(),
            r == !groups_named(old(self)@, entry.name@).contains_key(entry.priority),
            !r ==> *final(self) == *old(self),
            r ==> final(self)@ == (StoreView {
                groups: old(self)@.groups.insert(
                    entry.name@,
                    groups_named(old(self)@, entry.name@).insert(entry.priority, entry@),
                ),
                ..old(self)@
            }),
    {
        match self.find_group_name(&entry.name) {
            None => {
                proof {
                    self.lemma_group_absent(entry.name@);
                }
                let name = entry.name.clone();
                let mut list: Vec<LinkGroup> = Vec::new();
                list.push(entry);
                proof {
                    let e = Seq::<(u64, GroupView)>::empty();
                    assert(priority_pairs(list@) =~= e.push((entry.priority, entry@)));
                    assert(pairs_to_map(e) == Map::<u64, GroupView>::empty());
                    lemma_pairs_push(e, entry.priority, entry@);
                }
                self.put_group_list(name, list);
                true
            },
            Some(i) => {
                let mut j: usize = 0;
                let n = self.config_map[i].1.len();
                while j < n
                    invariant
                        self.wf(),
                        *self == *old(self),
                        i < self.config_map@.len(),
                        self.config_map@[i as int].0@ == entry.name@,
                        n == self.config_map@[i as int].1@.len(),
                        j <= n,
                        forall|k: int|
                            0 <= k < j ==> (#[trigger] self.config_map@[i as int].1@[k]).priority
                                != entry.priority,
                    decreases n - j,
                {
                    if self.config_map[i].1[j].priority == entry.priority {
                        proof {
                            self.lemma_group_at(i as int);
                            let list = self.config_map@[i as int].1@;
                            lemma_priority_map(list);
                            assert(list[j as int].priority == entry.priority);
                            assert(priority_map(list).contains_key(entry.priority));
                        }
                        return false;
                    }
                    j = j + 1;
                }
                let ghost old_map = self.config_map@;
                let ghost old_list = self.config_map@[i as int].1@;
                proof {
                    self.lemma_group_at(i as int);
                    lemma_priority_map(old_list);
                }
                let (name, mut list) = self.config_map.remove(i);
                put_sorted(&mut list, entry);
                self.config_map.insert(i, (name, list));
                proof {
                    let gp = group_pairs(old_map);
                    assert(self.config_map@ =~= old_map.update(i as int, (name, list)));
                    assert(group_pairs(self.config_map@) =~= gp.update(
                        i as int,
                        (gp[i as int].0, priority_map(list@)),
                    ));
                    lemma_pairs_update(gp, i as int, priority_map(list@));
                    lemma_ascending_update(gp, i as int, priority_map(list@));
                    assert forall|k: int| 0 <= k < self.config_map@.len() implies list_wf(
                        (#[trigger] self.config_map@[k]).0@,
                        self.config_map@[k].1@,
                    ) && sorted_desc(self.config_map@[k].1@) by {
                        if k != i {
                            assert(self.config_map@[k] == old_map[k]);
                        }
                    }
                }
                true
            },
        }
    }

    /// Holds `list` under `name`, in place of any list held there before.
    pub fn put_group_list(&mut self, name: String, list: Vec<LinkGroup>)
        requires
            old(self).wf(),
            list_wf(name@, list@),
            sorted_desc(list@),
        ensures
            final(self).wf(),
            final(self)@ == (StoreView {
                groups: old(self)@.groups.insert(name@, priority_map(list@)),
                ..old(self)@
            }),
            final(self).active_configs == old(self).active_configs,
    {
        let ghost old_map = self.config_map@;
        let ghost gp = group_pairs(old_map);
        let ghost lv = list@;
        match self.find_group_name(&name) {
            Some(i) => {
                self.config_map.remove(i);
                self.config_map.insert(i, (name, list));
                proof {
                    assert(group_pairs(self.config_map@) =~= gp.update(
                        i as int,
                        (gp[i as int].0, priority_map(lv)),
                    ));
                    lemma_pairs_update(gp, i as int, priority_map(lv));
                    lemma_ascending_update(gp, i as int, priority_map(lv));
                }
            },
            None => {
                proof {
                    assert forall|q: int| 0 <= q < self.config_map@.len() implies (
                    #[trigger] self.config_map@[q]).0@ != name@ by {
                        assert(gp[q].0 == self.config_map@[q].0@);
                    }
                    assert forall|a: int, b: int| 0 <= a < b < self.config_map@.len() implies seq_lt(
                        self.config_map@[a].0@,
                        self.config_map@[b].0@,
                    ) by {
                        assert(gp[a].0 == self.config_map@[a].0@ && gp[b].0 == self.config_map@[b].0@);
                    }
                }
                let k = name_slot(&self.config_map, &name);
                self.config_map.insert(k, (name, list));
                proof {
                    assert(group_pairs(self.config_map@) =~= gp.insert(k as int, (name@, priority_map(lv))));
                    lemma_pairs_insert(gp, k as int, name@, priority_map(lv));
                    assert forall|j: int| 0 <= j < k implies seq_lt((#[trigger] gp[j]).0, name@) by {
                        assert(gp[j].0 == old_map[j].0@);
                    }
                    assert forall|j: int| k <= j < gp.len() implies seq_lt(name@, (#[trigger] gp[j]).0) by {
                        assert(gp[j].0 == old_map[j].0@);
                    }
                    lemma_ascending_insert(gp, k as int, (name@, priority_map(lv)));
                }
            },
        }
        proof {
            assert forall|k: int| 0 <= k < self.config_map@.len() implies list_wf(
                (#[trigger] self.config_map@[k]).0@,
                self.config_map@[k].1@,
            ) && sorted_desc(self.config_map@[k].1@) by {
                if self.config_map@[k].1@ != lv {
                    let j = choose|j: int| 0 <= j < old_map.len() && old_map[j] == self.config_map@[k];
                }
            }
        }
    }

    /// Removes the group with this name and priority. When it was the active
    /// one, the highest group left under the name becomes active and is
    /// returned, to be activated on disk; with none left, nothing is active
    /// under the name. Returns whether the group was held, and that group.
    pub fn remove_group(&mut self, name: &String, priority: u64) -> (r: (bool, Option<LinkGroup>))
        requires
            old(self).wf(),
        ensures
            final(self).wf(),
            r.0 == groups_named(old(self)@, name@).contains_key(priority),
            !r.0 ==> *final(self) == *old(self) && r.1 is None,
            ({
                let was_active = old(self)@.active.contains_key(name@) && old(self)@.active[name@]
                    == priority;
                let rest = groups_named(old(self)@, name@).remove(priority);
                &&& r.0 && !was_active ==> r.1 is None && final(self)@ == (StoreView {
                    groups: old(self)@.groups.insert(name@, rest),
                    ..old(self)@
                })
                &&& r.0 && was_active ==> match r.1 {
                    Some(g) => is_highest(rest, g.priority) && g@ == rest[g.priority] && final(self)@
                        == (StoreView {
                        groups: old(self)@.groups.insert(name@, rest),
                        active: old(self)@.active.insert(name@, g.priority),
                        ..old(self)@
                    }),
                    None => rest == Map::<u64, GroupView>::empty() && final(self)@ == (StoreView {
                        groups: old(self)@.groups.insert(name@, rest),
                        active: old(self)@.active.remove(name@),
                        ..old(self)@
                    }),
                }
            }),
    {
        let ghost before = self@;
        let was_active = match self.find_active(name) {
            Some(a) => self.active_configs[a].1 == priority,
            None => false,
        };
        if !self.remove_config_entry(name, priority) {
            return (false, None);
        }
        if !was_active {
            return (true, None);
        }
        let ghost mid = self@;
        proof {
            assert(groups_named(mid, name@) == groups_named(before, name@).remove(priority));
        }
        match self.select_highest_group(name) {
            None => (true, None),
            Some(g) => {
                self.set_active(name, &g.priority);
                proof {
                    assert(before.active.remove(name@).insert(name@, g.priority) =~= before.active.insert(
                        name@,
                        g.priority,
                    ));
                }
                (true, Some(g))
            },
        }
    }

    /// Same as `insert_config_entry`.
    pub fn add_config_entry(&mut self, entry: LinkGroup) -> (r: bool)
        requires
            old(self).wf(),
            entry.wf(),
        ensures
            final(self).wf(),
            r == !groups_named(old(self)@, entry.name@).contains_key(entry.priority),
            !r ==> *final(self) == *old(self),
            r ==> final(self)@ == (StoreView {
                groups: old(self)@.groups.insert(
                    entry.name@,
                    groups_named(old(self)@, entry.name@).insert(entry.priority, entry@),
                ),
                ..old(self)@
            }),
    {
        self.insert_config_entry(entry)
    }

    /// Removes the group with this name and priority; tells whether it was
    /// held. The name's list stays, possibly empty; if the group was the
    /// active one, the name no longer has an active group. Nothing on disk
    /// changes: callers deactivate the group first.
    pub fn remove_config_entry(&mut self, name: &String, priority: u64) -> (r: bool)
        requires
            old(self).wf(),
        ensures
            final(self).wf(),
            r == groups_named(old(self)@, name@).contains_key(priority),
            !r ==> *final(self) == *old(self),
            r ==> final(self)@ == (StoreView {
                groups: old(self)@.groups.insert(name@, old(self)@.groups[name@].remove(priority)),
                active: if old(self)@.active.contains_key(name@) && old(self)@.active[name@] == priority {
                    old(self)@.active.remove(name@)
                } else {
                    old(self)@.active
                },
                ..old(self)@
            }),
    {
        match self.find_group_name(name) {
            None => {
                proof {
                    self.lemma_group_absent(name@);
                }
                false
            },
            Some(i) => {
                proof {
                    self.lemma_group_at(i as int);
                    lemma_priority_map(self.config_map@[i as int].1@);
                }
                match find_priority(&self.config_map[i].1, priority) {
                    None => false,
                    Some(k) => {
                        let ghost ap = active_pairs(self.active_configs@);
                        match self.find_active(name) {
                            Some(a) => {
                                if self.active_configs[a].1 == priority {
                                    self.active_configs.remove(a);
                                    proof {
                                        assert(active_pairs(self.active_configs@) =~= ap.remove(a as int));
                                        lemma_pairs_remove(ap, a as int);
                                        lemma_ascending_remove(ap, a as int);
                                    }
                                }
                            },
                            None => {},
                        }
                        let ghost old_map = self.config_map@;
                        let ghost old_list = self.config_map@[i as int].1@;
                        let (n, mut list) = self.config_map.remove(i);
                        list.remove(k);
                        proof {
                            let pp = priority_pairs(old_list);
                            assert(priority_pairs(list@) =~= pp.remove(k as int));
                            lemma_pairs_remove(pp, k as int);
                            assert(pp[k as int].0 == priority);
                        }
                        self.config_map.insert(i, (n, list));
                        proof {
                            let gp = group_pairs(old_map);
                            assert(group_pairs(self.config_map@) =~= gp.update(
                                i as int,
                                (gp[i as int].0, priority_map(list@)),
                            ));
                            lemma_pairs_update(gp, i as int, priority_map(list@));
                            assert forall|q: int| 0 <= q < self.config_map@.len() implies list_wf(
                                (#[trigger] self.config_map@[q]).0@,
                                self.config_map@[q].1@,
                            ) by {
                                if q != i {
                                    assert(self.config_map@[q] == old_map[q]);
                                } else {
                                    assert forall|a: int| 0 <= a < list@.len() implies (
                                    #[trigger] list@[a]).name@ == n@ by {
                                        if a < k {
                                            assert(list@[a] == old_list[a]);
                                        } else {
                                            assert(list@[a] == old_list[a + 1]);
                                        }
                                    }
                                }
                            }
                        }
                        true
                    },
                }
            },
        }
    }

    /// The groups held under `name`, if the name is known.
    pub fn config_entrys_by_name(&self, name: &String) -> (r: Option<&Vec<LinkGroup>>)
        requires
            self.wf(),
        ensures
            match r {
                Some(v) => self@.groups.contains_key(name@) && priority_map(v@)
                    == self@.groups[name@] && list_wf(name@, v@),
                None => !self@.groups.contains_key(name@),
            },
    {
        match self.find_group_name(name) {
            None => {
                proof {
                    self.lemma_group_absent(name@);
                }
                None
            },
            Some(i) => {
                proof {
                    self.lemma_group_at(i as int);
                }
                Some(&self.config_map[i].1)
            },
        }
    }

    /// Every group list, by name.
    pub fn config_map(&self) -> (r: &Vec<(String, Vec<LinkGroup>)>)
        ensures
            r == &self.config_map,
    {
        &self.config_map
    }

    /// All standalone links.
    pub fn links(&self) -> (r: &Vec<Link>)
        ensures
            r == &self.links,
    {
        &self.links
    }

    /// Every active selection, as (name, priority).
    pub fn active_configs(&self) -> (r: &Vec<(String, u64)>)
        ensures
            r == &self.active_configs,
    {
        &self.active_configs
    }

    /// The position of the active selection for `name`.
    fn find_active(&self, name: &String) -> (r: Option<usize>)
        requires
            self.wf(),
        ensures
            match r {
                Some(i) => i < self.active_configs@.len() && self.active_configs@[i as int].0@
                    == name@ && self@.active.contains_key(name@) && self@.active[name@]
                    == self.active_configs@[i as int].1,
                None => !self@.active.contains_key(name@),
            },
    {
        let ghost ap = active_pairs(self.active_configs@);
        let mut i: usize = 0;
        while i < self.active_configs.len()
            invariant
                self.wf(),
                i <= self.active_configs@.len(),
                ap == active_pairs(self.active_configs@),
                forall|j: int| 0 <= j < i ==> (#[trigger] self.active_configs@[j]).0@ != name@,
            decreases self.active_configs.len() - i,
        {
            if self.active_configs[i].0 == *name {
                proof {
                    lemma_pairs_to_map(ap);
                    assert(ap[i as int] == (name@, self.active_configs@[i as int].1));
                    assert(has_key(ap, ap[i as int].0));
                    assert(pairs_to_map(ap)[ap[i as int].0] == ap[i as int].1);
                }
                return Some(i);
            }
            i = i + 1;
        }
        proof {
            lemma_pairs_to_map(ap);
            assert forall|j: int| 0 <= j < ap.len() implies #[trigger] ap[j].0 != name@ by {
                assert(ap[j].0 == self.active_configs@[j].0@);
            }
        }
        None
    }

    /// The active group for `name`: the one whose priority is the active one.
    pub fn active_config_entry(&self, name: &String) -> (r: Option<&LinkGroup>)
        requires
            self.wf(),
        ensures
            match r {
                Some(g) => self@.active.contains_key(name@) && groups_named(self@, name@).contains_key(
                    self@.active[name@],
                ) && g@ == groups_named(self@, name@)[self@.active[name@]],
                None => !(self@.active.contains_key(name@) && groups_named(
                    self@,
                    name@,
                ).contains_key(self@.active[name@])),
            },
    {
        let a = match self.find_active(name) {
            None => {
                return None;
            },
            Some(a) => a,
        };
        let p = self.active_configs[a].1;
        match self.find_group_name(name) {
            None => {
                proof {
                    self.lemma_group_absent(name@);
                }
                None
            },
            Some(i) => {
                proof {
                    self.lemma_group_at(i as int);
                    lemma_priority_map(self.config_map@[i as int].1@);
                }
                match find_priority(&self.config_map[i].1, p) {
                    None => None,
                    Some(k) => Some(&self.config_map[i].1[k]),
                }
            },
        }
    }

    /// Whether `cfg_entry` is the active group for its name.
    pub fn is_active(&self, cfg_entry: &LinkGroup) -> (r: bool)
        requires
            self.wf(),
        ensures
            r == (self@.active.contains_key(cfg_entry.name@) && self@.active[cfg_entry.name@]
                == cfg_entry.priority),
    {
        match self.find_active(&cfg_entry.name) {
            None => false,
            Some(a) => self.active_configs[a].1 == cfg_entry.priority,
        }
    }

    /// The group under `name` with exactly priority `pri`.
    pub fn select_group(&self, name: &String, pri: u64) -> (r: Option<LinkGroup>)
        requires
            self.wf(),
        ensures
            match r {
                Some(g) => groups_named(self@, name@).contains_key(pri) && g.priority == pri && g@
                    == groups_named(self@, name@)[pri],
                None => !groups_named(self@, name@).contains_key(pri),
            },
    {
        match self.find_group_name(name) {
            None => {
                proof {
                    self.lemma_group_absent(name@);
                }
                None
            },
            Some(i) => {
                proof {
                    self.lemma_group_at(i as int);
                    lemma_priority_map(self.config_map@[i as int].1@);
                }
                match find_priority(&self.config_map[i].1, pri) {
                    None => None,
                    Some(k) => Some(self.config_map[i].1[k].clone()),
                }
            },
        }
    }

    /// The group under `name` with the highest priority.
    pub fn select_highest_group(&self, name: &String) -> (r: Option<LinkGroup>)
        requires
            self.wf(),
        ensures
            match r {
                Some(g) => is_highest(groups_named(self@, name@), g.priority) && g@ == groups_named(
                    self@,
                    name@,
                )[g.priority],
                None => groups_named(self@, name@) == Map::<u64, GroupView>::empty(),
            },
    {
        match self.find_group_name(name) {
            None => {
                proof {
                    self.lemma_group_absent(name@);
                }
                None
            },
            Some(i) => {
                let list = &self.config_map[i].1;
                proof {
                    self.lemma_group_at(i as int);
                    lemma_priority_map(list@);
                }
                if list.len() == 0 {
                    proof {
                        assert(priority_map(list@) =~= Map::<u64, GroupView>::empty());
                    }
                    return None;
                }
                let mut best: usize = 0;
                let mut j: usize = 1;
                while j < list.len()
                    invariant
                        1 <= j <= list@.len(),
                        best < j,
                        forall|k: int| 0 <= k < j ==> (#[trigger] list@[k]).priority <= list@[best as int].priority,
                    decreases list.len() - j,
                {
                    if list[j].priority > list[best].priority {
                        best = j;
                    }
                    j = j + 1;
                }
                let g = list[best].clone();
                proof {
                    let m = priority_map(list@);
                    assert(list@[best as int].priority == g.priority);
                    assert forall|o: u64| #[trigger] m.contains_key(o) implies o <= g.priority by {
                        let k = choose|k: int| 0 <= k < list@.len() && (#[trigger] list@[k]).priority == o;
                    }
                }
                Some(g)
            },
        }
    }

    /// The group under `name` with the smallest priority that is at least `pri`.
    pub fn select_closest_group(&self, name: &String, pri: u64) -> (r: Option<LinkGroup>)
        requires
            self.wf(),
        ensures
            match r {
                Some(g) => is_closest(groups_named(self@, name@), pri, g.priority) && g@
                    == groups_named(self@, name@)[g.priority],
                None => forall|o: u64| #[trigger] groups_named(self@, name@).contains_key(o) ==> o < pri,
            },
    {
        match self.find_group_name(name) {
            None => {
                proof {
                    self.lemma_group_absent(name@);
                }
                None
            },
            Some(i) => {
                let list = &self.config_map[i].1;
                proof {
                    self.lemma_group_at(i as int);
                    lemma_priority_map(list@);
                }
                let mut best: Option<usize> = None;
                let mut j: usize = 0;
                while j < list.len()
                    invariant
                        j <= list@.len(),
                        match best {
                            Some(b) => b < j && list@[b as int].priority >= pri && forall|k: int|
                                0 <= k < j && (#[trigger] list@[k]).priority >= pri ==> list@[b as int].priority
                                    <= list@[k].priority,
                            None => forall|k: int| 0 <= k < j ==> (#[trigger] list@[k]).priority < pri,
                        },
                    decreases list.len() - j,
                {
                    let p = list[j].priority;
                    if p >= pri {
                        match best {
                            None => {
                                best = Some(j);
                            },
                            Some(b) => {
                                if p < list[b].priority {
                                    best = Some(j);
                                }
                            },
                        }
                    }
                    j = j + 1;
                }
                match best {
                    None => {
                        proof {
                            let m = priority_map(list@);
                            assert forall|o: u64| #[trigger] m.contains_key(o) implies o < pri by {
                                let k = choose|k: int| 0 <= k < list@.len() && (#[trigger] list@[k]).priority == o;
                            }
                        }
                        None
                    },
                    Some(b) => {
                        let g = list[b].clone();
                        proof {
                            let m = priority_map(list@);
                            assert(list@[b as int].priority == g.priority);
                            assert forall|o: u64| #[trigger] m.contains_key(o) && o >= pri implies g.priority <= o by {
                                let k = choose|k: int| 0 <= k < list@.len() && (#[trigger] list@[k]).priority == o;
                            }
                        }
                        Some(g)
                    },
                }
            },
        }
    }

    /// Selects with a signed priority: a negative one asks for the highest
    /// group, any other for the closest group at or above it.
    pub fn select_best(&self, name: &String, pri: &i64) -> (r: Option<LinkGroup>)
        requires
            self.wf(),
        ensures
            *pri < 0 ==> match r {
                Some(g) => is_highest(groups_named(self@, name@), g.priority) && g@ == groups_named(
                    self@,
                    name@,
                )[g.priority],
                None => groups_named(self@, name@) == Map::<u64, GroupView>::empty(),
            },
            *pri >= 0 ==> match r {
                Some(g) => is_closest(groups_named(self@, name@), *pri as u64, g.priority) && g@
                    == groups_named(self@, name@)[g.priority],
                None => forall|o: u64| #[trigger] groups_named(self@, name@).contains_key(o) ==> o < *pri as u64,
            },
    {
        if *pri < 0 {
            self.select_highest_group(name)
        } else {
            self.select_closest_group(name, *pri as u64)
        }
    }

    /// Makes `priority` the active one for `name`, replacing any earlier choice.
    pub fn set_active(&mut self, name: &String, priority: &u64)
        requires
            old(self).wf(),
        ensures
            final(self).wf(),
            final(self)@ == (StoreView { active: old(self)@.active.insert(name@, *priority), ..old(self)@ }),
            final(self).config_map == old(self).config_map,
    {
        let ghost ap = active_pairs(self.active_configs@);
        let ghost old_act = self.active_configs@;
        match self.find_active(name) {
            Some(i) => {
                let (n, _) = self.active_configs.remove(i);
                self.active_configs.insert(i, (n, *priority));
                proof {
                    assert(active_pairs(self.active_configs@) =~= ap.update(i as int, (ap[i as int].0, *priority)));
                    lemma_pairs_update(ap, i as int, *priority);
                    lemma_ascending_update(ap, i as int, *priority);
                }
            },
            None => {
                proof {
                    lemma_pairs_to_map(ap);
                    assert forall|q: int| 0 <= q < old_act.len() implies (#[trigger] old_act[q]).0@ != name@ by {
                        assert(ap[q].0 == old_act[q].0@);
                    }
                    assert forall|x: int, y: int| 0 <= x < y < old_act.len() implies seq_lt(
                        old_act[x].0@,
                        old_act[y].0@,
                    ) by {
                        assert(ap[x].0 == old_act[x].0@ && ap[y].0 == old_act[y].0@);
                    }
                }
                let k = name_slot(&self.active_configs, name);
                self.active_configs.insert(k, (name.clone(), *priority));
                proof {
                    assert(active_pairs(self.active_configs@) =~= ap.insert(k as int, (name@, *priority)));
                    lemma_pairs_insert(ap, k as int, name@, *priority);
                    assert forall|j: int| 0 <= j < k implies seq_lt((#[trigger] ap[j]).0, name@) by {
                        assert(ap[j].0 == old_act[j].0@);
                    }
                    assert forall|j: int| k <= j < ap.len() implies seq_lt(name@, (#[trigger] ap[j]).0) by {
                        assert(ap[j].0 == old_act[j].0@);
                    }
                    lemma_ascending_insert(ap, k as int, (name@, *priority));
                }
            },
        }
    }

    /// Adds a standalone link, in place of the link of the same name if there is one.
    pub fn add_link(&mut self, link: Link)
        requires
            old(self).wf(),
        ensures
            final(self).wf(),
            final(self)@ == (StoreView { links: put_link(old(self)@.links, link@), ..old(self)@ }),
            final(self).config_map == old(self).config_map,
    {
        let ghost old_links = self.links@;
        let found = find_named(&self.links, &link.name);
        proof {
            lemma_put_link(
                old_links,
                match found {
                    Some(i) => Some(i as int),
                    None => None,
                },
                link,
            );
        }
        match found {
            Some(i) => {
                self.links.remove(i);
            },
            None => {},
        }
        self.links.push(link);
    }

    /// Whether a standalone link is called `name`.
    pub fn has_link(&self, name: &String) -> (r: bool)
        ensures
            r == has_named(self.links@, name@),
    {
        find_named(&self.links, name).is_some()
    }

    /// Removes the first standalone link called `name`; tells whether there was one.
    pub fn remove_link(&mut self, name: &String) -> (r: bool)
        requires
            old(self).wf(),
        ensures
            final(self).wf(),
            r == has_named(old(self).links@, name@),
            r ==> exists|i: int|
                first_named(old(self).links@, i, name@) && final(self).links@ == old(
                    self,
                ).links@.remove(i),
            !r ==> final(self).links@ == old(self).links@,
            final(self)@ == (StoreView { links: link_views(final(self).links@), ..old(self)@ }),
    {
        match find_named(&self.links, name) {
            Some(i) => {
                proof {
                    lemma_remove_keeps_unique(self.links@, i as int);
                }
                self.links.remove(i);
                true
            },
            None => false,
        }
    }

    /// The first standalone link called `name`.
    pub fn get_link(&self, name: &String) -> (r: Option<&Link>)
        ensures
            match r {
                Some(l) => exists|i: int| first_named(self.links@, i, name@) && *l == self.links@[i],
                None => !has_named(self.links@, name@),
            },
    {
        match find_named(&self.links, name) {
            Some(i) => Some(&self.links[i]),
            None => None,
        }
    }
}

/// Adds `g` to a list kept in descending order of priority, in place of a
/// group of the same priority if there is one.
pub fn put_sorted(list: &mut Vec<LinkGroup>, g: LinkGroup)
    requires
        g.wf(),
        list_wf(g.name@, old(list)@),
        sorted_desc(old(list)@),
    ensures
        list_wf(g.name@, final(list)@),
        sorted_desc(final(list)@),
        priority_map(final(list)@) == priority_map(old(list)@).insert(g.priority, g@),
{
    let ghost old_list = list@;
    let ghost pp = priority_pairs(old_list);
    let mut k: usize = 0;
    while k < list.len() && list[k].priority > g.priority
        invariant
            k <= list@.len(),
            list@ == old_list,
            forall|j: int| 0 <= j < k ==> (#[trigger] list@[j]).priority > g.priority,
        decreases list.len() - k,
    {
        k = k + 1;
    }
    if k < list.len() && list[k].priority == g.priority {
        list.remove(k);
        list.insert(k, g);
        proof {
            assert(list@ =~= old_list.update(k as int, g));
            assert(priority_pairs(list@) =~= pp.update(k as int, (pp[k as int].0, g@)));
            lemma_pairs_update(pp, k as int, g@);
        }
    } else {
        list.insert(k, g);
        proof {
            assert(list@ =~= old_list.insert(k as int, g));
            assert(priority_pairs(list@) =~= pp.insert(k as int, (g.priority, g@)));
            assert(!has_key(pp, g.priority)) by {
                if has_key(pp, g.priority) {
                    let j = choose|j: int| 0 <= j < pp.len() && #[trigger] pp[j].0 == g.priority;
                    assert(old_list[j].priority == g.priority);
                    if j > k {
                        assert(old_list[k as int].priority > old_list[j].priority);
                    }
                }
            }
            lemma_pairs_insert(pp, k as int, g.priority, g@);
            assert forall|a: int, b: int| 0 <= a < b < list@.len() implies (#[trigger] list@[a]).priority > (
            #[trigger] list@[b]).priority by {
                if a < k && b == k {
                } else if a == k {
                    assert(list@[b] == old_list[b - 1]);
                    if b - 1 > k {
                        assert(old_list[k as int].priority > old_list[b - 1].priority);
                    }
                } else if a < k && b > k {
                    assert(list@[b] == old_list[b - 1]);
                } else if a > k {
                    assert(list@[a] == old_list[a - 1]);
                    assert(list@[b] == old_list[b - 1]);
                }
            }
        }
    }
    proof {
        assert forall|q: int| 0 <= q < list@.len() implies (#[trigger] list@[q]).name@ == g.name@
            && list@[q].wf() by {
            if list@[q] != g {
                let q1 = if q < k {
                    q
                } else if list@.len() == old_list.len() {
                    q
                } else {
                    q - 1
                };
                assert(list@[q] == old_list[q1]);
            }
        }
    }
}

/// Finds the group of `list` with priority `p`.
fn find_priority(list: &Vec<LinkGroup>, p: u64) -> (r: Option<usize>)
    ensures
        match r {
            Some(k) => k < list@.len() && list@[k as int].priority == p,
            None => forall|k: int| 0 <= k < list@.len() ==> (#[trigger] list@[k]).priority != p,
        },
{
    let mut k: usize = 0;
    while k < list.len()
        invariant
            k <= list@.len(),
            forall|j: int| 0 <= j < k ==> (#[trigger] list@[j]).priority != p,
        decreases list.len() - k,
    {
        if list[k].priority == p {
            return Some(k);
        }
        k = k + 1;
    }
    None
}

/// In a well-formed store no name has two active priorities.
pub proof fn lemma_at_most_one_active(c: &Config)
    requires
        c.wf(),
    ensures
        forall|i: int, j: int|
            0 <= i < c.active_configs@.len() && 0 <= j < c.active_configs@.len()
                && #[trigger] c.active_configs@[i].0@ == #[trigger] c.active_configs@[j].0@ ==> i == j,
{
    let ap = active_pairs(c.active_configs@);
    assert forall|i: int, j: int|
        0 <= i < c.active_configs@.len() && 0 <= j < c.active_configs@.len()
            && #[trigger] c.active_configs@[i].0@ == #[trigger] c.active_configs@[j].0@ implies i == j by {
        assert(ap[i].0 == ap[j].0);
    }
}

} // verus!
