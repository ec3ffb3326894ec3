use vstd::prelude::*;
use crate::link::{Link, LinkView, first_named, has_named, find_named, names_unique, put_link};

verus! {

/// What a group is, mathematically.
pub ghost struct GroupView {
    pub name: Seq<char>,
    pub base_path: Seq<char>,
    pub priority: u64,
    pub links: Seq<LinkView>,
}

/// The views of a sequence of links, in order.
pub open spec fn link_views(links: Seq<Link>) -> Seq<LinkView> {
    links.map_values(|l: Link| l@)
}

/// Adding `link` to `old` by `put_link`, after the first link of its name
/// (at `i`, if any) was taken out, keeps names unique.
pub proof fn lemma_put_link(old: Seq<Link>, i: Option<int>, link: Link)
    requires
        names_unique(link_views(old)),
        match i {
            Some(k) => first_named(old, k, link.name@),
            None => !has_named(old, link.name@),
        },
    ensures
        link_views(
            match i {
                Some(k) => old.remove(k),
                None => old,
            }.push(link),
        ) == put_link(link_views(old), link@),
        names_unique(
            link_views(
                match i {
                    Some(k) => old.remove(k),
                    None => old,
                }.push(link),
            ),
        ),
{
    let v = link_views(old);
    let rest = match i {
        Some(k) => old.remove(k),
        None => old,
    };
    let u = link_views(rest.push(link));
    match i {
        Some(k) => {
            assert(v[k].name == link.name@);
            let c = choose|c: int| 0 <= c < v.len() && #[trigger] v[c].name == link.name@;
            assert(v[c].name == v[k].name);
            assert(u =~= v.remove(k).push(link@));
            assert forall|a: int, b: int|
                0 <= a < u.len() && 0 <= b < u.len() && #[trigger] u[a].name == #[trigger] u[b].name
                implies a == b by {
                let a1 = if a < k { a } else { a + 1 };
                let b1 = if b < k { b } else { b + 1 };
                if a < u.len() - 1 && b < u.len() - 1 {
                    assert(u[a] == v[a1] && u[b] == v[b1]);
                } else if a < u.len() - 1 {
                    assert(u[a] == v[a1]);
                    assert(v[a1].name == v[k].name);
                } else if b < u.len() - 1 {
                    assert(u[b] == v[b1]);
                    assert(v[b1].name == v[k].name);
                }
            }
        },
        None => {
            assert(u =~= v.push(link@));
            assert forall|c: int| 0 <= c < v.len() implies #[trigger] v[c].name != link.name@ by {
                assert(v[c].name == old[c].name@);
            }
            assert forall|a: int, b: int|
                0 <= a < u.len() && 0 <= b < u.len() && #[trigger] u[a].name == #[trigger] u[b].name
                implies a == b by {
                if a < v.len() && b < v.len() {
                    assert(u[a] == v[a] && u[b] == v[b]);
                } else if a < v.len() {
                    assert(u[a] == v[a]);
                } else if b < v.len() {
                    assert(u[b] == v[b]);
                }
            }
        },
    }
}

/// Removing one link keeps names unique.
pub proof fn lemma_remove_keeps_unique(old: Seq<Link>, k: int)
    requires
        names_unique(link_views(old)),
        0 <= k < old.len(),
    ensures
        names_unique(link_views(old.remove(k))),
{
    let v = link_views(old);
    let u = link_views(old.remove(k));
    assert(u =~= v.remove(k));
    assert forall|a: int, b: int|
        0 <= a < u.len() && 0 <= b < u.len() && #[trigger] u[a].name == #[trigger] u[b].name
        implies a == b by {
        let a1 = if a < k { a } else { a + 1 };
        let b1 = if b < k { b } else { b + 1 };
        assert(u[a] == v[a1] && u[b] == v[b1]);
    }
}

/// A named, prioritised bundle of links whose relative targets resolve
/// against `base_path`.
#[derive(Debug)]
pub struct LinkGroup {
    pub name: String,
    pub base_path: String,
    pub links: Vec<Link>,
    pub priority: u64,
}

impl View for LinkGroup {
    type V = GroupView;

    open spec fn view(&self) -> GroupView {
        GroupView {
            name: self.name@,
            base_path: self.base_path@,
            priority: self.priority,
            links: link_views(self.links@),
        }
    }
}

impl Clone for LinkGroup {
    fn clone(&self) -> (r: Self)
        ensures
            r.name == self.name,
            r.base_path == self.base_path,
            r.priority == self.priority,
            r.links@ == self.links@,
    {
        let links = self.links.clone();
        assert(links@ =~= self.links@);
        LinkGroup {
            name: self.name.clone(),
            base_path: self.base_path.clone(),
            links,
            priority: self.priority,
        }
    }
}

impl LinkGroup {
    /// No two links of the group share a name.
    pub open spec fn wf(&self) -> bool {
        names_unique(self@.links)
    }

    /// A group with no links and an empty base path.
    pub fn new(name: String, priority: u64) -> (r: LinkGroup)
        ensures
            r.name == name,
            r.priority == priority,
            r.base_path@ == Seq::<char>::empty(),
            r.links@ == Seq::<Link>::empty(),
            r.wf(),
    {
        LinkGroup { name, priority, base_path: String::new(), links: Vec::new() }
    }

    pub fn set_base_path(&mut self, base_path: String)
        ensures
            *final(self) == (LinkGroup { base_path, ..*old(self) }),
    {
        self.base_path = base_path;
    }

    pub fn set_links(&mut self, links: Vec<Link>)
        requires
            names_unique(link_views(links@)),
        ensures
            final(self).wf(),
            *final(self) == (LinkGroup { links, ..*old(self) }),
    {
        self.links = links;
    }

    /// A copy of the first link called `name`, if any.
    pub fn get_link(&self, name: &String) -> (r: Option<Link>)
        ensures
            match r {
                Some(l) => exists|i: int| first_named(self.links@, i, name@) && l == self.links@[i],
                None => !has_named(self.links@, name@),
            },
    {
        match find_named(&self.links, name) {
            Some(i) => Some(self.links[i].clone()),
            None => None,
        }
    }

    /// Removes the first link called `name`; tells whether there was one.
    pub fn remove_link(&mut self, name: &String) -> (r: bool)
        requires
            old(self).wf(),
        ensures
            final(self).wf(),
            r == has_named(old(self).links@, name@),
            final(self).name == old(self).name,
            final(self).base_path == old(self).base_path,
            final(self).priority == old(self).priority,
            r ==> exists|i: int|
                first_named(old(self).links@, i, name@) && final(self).links@ == old(
                    self,
                ).links@.remove(i),
            !r ==> final(self).links@ == old(self).links@,
    {
        match find_named(&self.links, name) {
            Some(i) => {
                proof {
                    lemma_remove_keeps_unique(self.links@, i as int);
                }
                self.links.remove(i);
                true
            },
            None => false,
        }
    }

    /// Adds `link`, first removing a link of the same name if there is one;
    /// tells whether one was replaced.
    pub fn add_link(&mut self, link: Link) -> (r: bool)
        requires
            old(self).wf(),
        ensures
            final(self).wf(),
            link_views(final(self).links@) == put_link(link_views(old(self).links@), link@),
            r == has_named(old(self).links@, link.name@),
            final(self).name == old(self).name,
            final(self).base_path == old(self).base_path,
            final(self).priority == old(self).priority,
            r ==> exists|i: int|
                first_named(old(self).links@, i, link.name@) && final(self).links@ == old(
                    self,
                ).links@.remove(i).push(link),
            !r ==> final(self).links@ == old(self).links@.push(link),
    {
        let ghost old_links = self.links@;
        let found = find_named(&self.links, &link.name);
        proof {
            lemma_put_link(
                old_links,
                match found {
                    Some(i) => Some(i as int),
                    None => None,
                },
                link,
            );
        }
        let did_remove = self.remove_link(&link.name);
        self.links.push(link);
        did_remove
    }
}

} // verus!
