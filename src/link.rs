use vstd::prelude::*;

verus! {

/// What a link is, mathematically: its name and its (possibly relative) target.
pub ghost struct LinkView {
    pub name: Seq<char>,
    pub path: Seq<char>,
}

/// A named alias that resolves to a target file or directory.
#[derive(Debug)]
pub struct Link {
    pub name: String,
    pub path: String,
}

impl View for Link {
    type V = LinkView;

    open spec fn view(&self) -> LinkView {
        LinkView { name: self.name@, path: self.path@ }
    }
}

impl Clone for Link {
    fn clone(&self) -> (r: Self)
        ensures
            r == *self,
    {
        Link { name: self.name.clone(), path: self.path.clone() }
    }
}

/// `i` is the first position in `links` of a link called `name`.
pub open spec fn first_named(links: Seq<Link>, i: int, name: Seq<char>) -> bool {
    &&& 0 <= i < links.len()
    &&& links[i].name@ == name
    &&& forall|j: int| 0 <= j < i ==> #[trigger] links[j].name@ != name
}

/// Some link in `links` is called `name`.
pub open spec fn has_named(links: Seq<Link>, name: Seq<char>) -> bool {
    exists|i: int| 0 <= i < links.len() && #[trigger] links[i].name@ == name
}

/// No two links of `links` share a name.
pub open spec fn names_unique(links: Seq<LinkView>) -> bool {
    forall|i: int, j: int|
        0 <= i < links.len() && 0 <= j < links.len() && #[trigger] links[i].name == #[trigger] links[j].name
            ==> i == j
}

/// `links` with `l` added, in place of the link of the same name if there is one.
pub open spec fn put_link(links: Seq<LinkView>, l: LinkView) -> Seq<LinkView> {
    if exists|i: int| 0 <= i < links.len() && #[trigger] links[i].name == l.name {
        links.remove(choose|i: int| 0 <= i < links.len() && #[trigger] links[i].name == l.name).push(l)
    } else {
        links.push(l)
    }
}

/// Finds the first link called `name`.
pub fn find_named(links: &Vec<Link>, name: &String) -> (r: Option<usize>)
    ensures
        match r {
            Some(i) => first_named(links@, i as int, name@),
            None => !has_named(links@, name@),
        },
{
    let mut i: usize = 0;
    while i < links.len()
        invariant
            i <= links.len(),
            forall|j: int| 0 <= j < i ==> #[trigger] links@[j].name@ != name@,
        decreases links.len() - i,
    {
        if links[i].name == *name {
            return Some(i);
        }
        i = i + 1;
    }
    None
}

impl Link {
    pub fn new(name: String, path: String) -> (r: Link)
        ensures
            r.name == name,
            r.path == path,
    {
        Link { name, path }
    }
}

} // verus!
