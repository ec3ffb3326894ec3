use vstd::prelude::*;
use vstd::string::*;
use crate::link::{Link, LinkView, put_link};
use crate::group::{LinkGroup, GroupView, link_views};
use crate::store::{Config, StoreView, active_pairs, group_pairs, priority_map, priority_pairs, list_wf,
    sorted_desc, put_sorted};
use crate::pairs::{sorted_by, lemma_sorted_determined};
use crate::text::{decimal, parse_u64, parse_priority, split_lines, string_views, lines_of, seq_lt,
    lemma_seq_lt_irreflexive, lemma_seq_lt_transitive};

verus! {

/// `s` followed by a newline.
pub open spec fn line(s: Seq<char>) -> Seq<char> {
    s.push('\n')
}

/// The active section: each name, then its priority, one per line.
pub open spec fn active_text(a: Seq<(Seq<char>, u64)>) -> Seq<char>
    decreases a.len(),
{
    if a.len() == 0 {
        Seq::empty()
    } else {
        active_text(a.drop_last()) + line(a.last().0) + line(decimal(a.last().1 as nat))
    }
}

/// A run of links: each name, then its path, one per line.
pub open spec fn links_text(l: Seq<LinkView>) -> Seq<char>
    decreases l.len(),
{
    if l.len() == 0 {
        Seq::empty()
    } else {
        links_text(l.drop_last()) + line(l.last().name) + line(l.last().path)
    }
}

/// One group record: base path, priority, its links, and a blank line.
pub open spec fn group_text(g: GroupView) -> Seq<char> {
    line(g.base_path) + line(decimal(g.priority as nat)) + links_text(g.links) + line(Seq::empty())
}

/// The records of one group list, in order.
pub open spec fn list_text(gs: Seq<GroupView>) -> Seq<char>
    decreases gs.len(),
{
    if gs.len() == 0 {
        Seq::empty()
    } else {
        list_text(gs.drop_last()) + group_text(gs.last())
    }
}

/// The group section: each name, its records, then two blank lines.
pub open spec fn groups_text(gs: Seq<(Seq<char>, Seq<GroupView>)>) -> Seq<char>
    decreases gs.len(),
{
    if gs.len() == 0 {
        Seq::empty()
    } else {
        groups_text(gs.drop_last()) + line(gs.last().0) + list_text(gs.last().1) + line(
            Seq::empty(),
        ) + line(Seq::empty())
    }
}

/// The group lists of a store, in their stored order.
pub open spec fn group_lists(m: Seq<(String, Vec<LinkGroup>)>) -> Seq<(Seq<char>, Seq<GroupView>)> {
    m.map_values(|e: (String, Vec<LinkGroup>)| (e.0@, e.1@.map_values(|g: LinkGroup| g@)))
}

/// The whole file: command directory, active section, blank line, standalone
/// links, blank line, groups.
pub open spec fn render(
    cmd: Seq<char>,
    active: Seq<(Seq<char>, u64)>,
    links: Seq<LinkView>,
    groups: Seq<(Seq<char>, Seq<GroupView>)>,
) -> Seq<char> {
    line(cmd) + active_text(active) + line(Seq::empty()) + links_text(links) + line(Seq::empty())
        + groups_text(groups)
}

/// The text that `to_text` writes for `c`.
pub open spec fn saved_text(c: Config) -> Seq<char> {
    render(
        c.cmd_dir_str@,
        active_pairs(c.active_configs@),
        link_views(c.links@),
        group_lists(c.config_map@),
    )
}

/// Appends `s` and a newline.
fn push_line(out: &mut String, s: &str)
    ensures
        final(out)@ == old(out)@ + line(s@),
{
    out.append(s);
    proof {
        reveal_strlit("\n");
    }
    out.append("\n");
    assert(final(out)@ =~= old(out)@ + line(s@));
}

/// Appends the decimal form of `n` and a newline.
fn push_number_line(out: &mut String, n: u64)
    ensures
        final(out)@ == old(out)@ + line(decimal(n as nat)),
{
    crate::text::push_decimal(out, n);
    proof {
        reveal_strlit("\n");
    }
    out.append("\n");
    assert(final(out)@ =~= old(out)@ + line(decimal(n as nat)));
}

/// Appends a run of links.
fn push_links(out: &mut String, links: &Vec<Link>)
    ensures
        final(out)@ == old(out)@ + links_text(link_views(links@)),
{
    let ghost lv = link_views(links@);
    let mut i: usize = 0;
    proof {
        assert(lv.take(0) =~= Seq::<LinkView>::empty());
        assert(out@ =~= old(out)@ + links_text(lv.take(0)));
    }
    while i < links.len()
        invariant
            i <= links@.len(),
            lv == link_views(links@),
            out@ == old(out)@ + links_text(lv.take(i as int)),
        decreases links.len() - i,
    {
        push_line(out, links[i].name.as_str());
        push_line(out, links[i].path.as_str());
        proof {
            assert(lv.take(i + 1).drop_last() =~= lv.take(i as int));
            assert(lv.take(i + 1).last() == links@[i as int]@);
            assert(out@ =~= old(out)@ + links_text(lv.take(i + 1)));
        }
        i = i + 1;
    }
    assert(lv.take(i as int) =~= lv);
}

impl Config {
    /// The persisted form of this configuration. In a well-formed
    /// configuration active entries and group names are held in ascending
    /// character order and each list in descending priority, so the text
    /// depends on the configuration's value alone (see
    /// `lemma_saved_text_determined`).
    pub fn to_text(&self) -> (r: String)
        ensures
            r@ == saved_text(*self),
    {
        let mut out = String::new();
        push_line(&mut out, self.cmd_dir_str.as_str());
        let ghost head = out@;
        let ghost ap = active_pairs(self.active_configs@);
        let mut i: usize = 0;
        proof {
            assert(ap.take(0) =~= Seq::<(Seq<char>, u64)>::empty());
            assert(out@ =~= head + active_text(ap.take(0)));
        }
        while i < self.active_configs.len()
            invariant
                i <= self.active_configs@.len(),
                ap == active_pairs(self.active_configs@),
                out@ == head + active_text(ap.take(i as int)),
            decreases self.active_configs.len() - i,
        {
            push_line(&mut out, self.active_configs[i].0.as_str());
            push_number_line(&mut out, self.active_configs[i].1);
            proof {
                assert(ap.take(i + 1).drop_last() =~= ap.take(i as int));
                assert(ap.take(i + 1).last() == ap[i as int]);
                assert(out@ =~= head + active_text(ap.take(i + 1)));
            }
            i = i + 1;
        }
        proof {
            assert(ap.take(i as int) =~= ap);
            reveal_strlit("");
        }
        push_line(&mut out, "");
        push_links(&mut out, &self.links);
        push_line(&mut out, "");
        let ghost mid = out@;
        let ghost gl = group_lists(self.config_map@);
        let mut j: usize = 0;
        proof {
            assert(gl.take(0) =~= Seq::<(Seq<char>, Seq<GroupView>)>::empty());
            assert(out@ =~= mid + groups_text(gl.take(0)));
        }
        while j < self.config_map.len()
            invariant
                j <= self.config_map@.len(),
                gl == group_lists(self.config_map@),
                out@ == mid + groups_text(gl.take(j as int)),
            decreases self.config_map.len() - j,
        {
            let ghost before = out@;
            push_line(&mut out, self.config_map[j].0.as_str());
            let list = &self.config_map[j].1;
            let ghost gv = list@.map_values(|g: LinkGroup| g@);
            let ghost after_name = out@;
            let mut k: usize = 0;
            proof {
                assert(gv.take(0) =~= Seq::<GroupView>::empty());
                assert(out@ =~= after_name + list_text(gv.take(0)));
            }
            while k < list.len()
                invariant
                    k <= list@.len(),
                    gv == list@.map_values(|g: LinkGroup| g@),
                    out@ == after_name + list_text(gv.take(k as int)),
                decreases list.len() - k,
            {
                let ghost b = out@;
                push_line(&mut out, list[k].base_path.as_str());
                push_number_line(&mut out, list[k].priority);
                push_links(&mut out, &list[k].links);
                proof {
                    reveal_strlit("");
                }
                push_line(&mut out, "");
                proof {
                    assert(gv.take(k + 1).drop_last() =~= gv.take(k as int));
                    assert(gv.take(k + 1).last() == list@[k as int]@);
                    assert(out@ =~= b + group_text(list@[k as int]@));
                    assert(out@ =~= after_name + list_text(gv.take(k + 1)));
                }
                k = k + 1;
            }
            proof {
                assert(gv.take(k as int) =~= gv);
                reveal_strlit("");
            }
            push_line(&mut out, "");
            push_line(&mut out, "");
            proof {
                assert(gl.take(j + 1).drop_last() =~= gl.take(j as int));
                assert(gl.take(j + 1).last() == gl[j as int]);
                assert(gl[j as int] == (self.config_map@[j as int].0@, gv));
                assert(out@ =~= mid + groups_text(gl.take(j + 1)));
            }
            j = j + 1;
        }
        proof {
            assert(gl.take(j as int) =~= gl);
            assert(out@ =~= saved_text(*self));
        }
        out
    }
}

/// Two well-formed configurations with the same value are saved as the same
/// text, whatever order they were built in: active entries and group names
/// come out in ascending character order, each list in descending priority.
pub proof fn lemma_saved_text_determined(a: Config, b: Config)
    requires
        a.wf(),
        b.wf(),
        a@ == b@,
    ensures
        saved_text(a) == saved_text(b),
{
    let name_lt = |x: Seq<char>, y: Seq<char>| seq_lt(x, y);
    assert forall|k: Seq<char>| !#[trigger] name_lt(k, k) by {
        lemma_seq_lt_irreflexive(k);
    }
    assert forall|x: Seq<char>, y: Seq<char>, z: Seq<char>|
        #[trigger] name_lt(x, y) && #[trigger] name_lt(y, z) implies name_lt(x, z) by {
        lemma_seq_lt_transitive(x, y, z);
    }
    let prio_lt = |x: u64, y: u64| x > y;
    assert forall|k: u64| !#[trigger] prio_lt(k, k) by {}
    assert forall|x: u64, y: u64, z: u64|
        #[trigger] prio_lt(x, y) && #[trigger] prio_lt(y, z) implies prio_lt(x, z) by {}
    let pa = active_pairs(a.active_configs@);
    let pb = active_pairs(b.active_configs@);
    assert(sorted_by(pa, name_lt));
    assert(sorted_by(pb, name_lt));
    lemma_sorted_determined(pa, pb, name_lt);
    let ga = group_pairs(a.config_map@);
    let gb = group_pairs(b.config_map@);
    assert(sorted_by(ga, name_lt));
    assert(sorted_by(gb, name_lt));
    lemma_sorted_determined(ga, gb, name_lt);
    let la = group_lists(a.config_map@);
    let lb = group_lists(b.config_map@);
    assert(la.len() == lb.len());
    assert forall|i: int| 0 <= i < la.len() implies la[i] == lb[i] by {
        let xa = a.config_map@[i].1@;
        let xb = b.config_map@[i].1@;
        assert(ga[i] == gb[i]);
        assert(sorted_desc(xa) && sorted_desc(xb));
        let qa = priority_pairs(xa);
        let qb = priority_pairs(xb);
        assert(sorted_by(qa, prio_lt)) by {
            assert forall|x: int, y: int| 0 <= x < y < qa.len() implies prio_lt(qa[x].0, qa[y].0) by {
                assert(qa[x].0 == xa[x].priority && qa[y].0 == xa[y].priority);
            }
        }
        assert(sorted_by(qb, prio_lt)) by {
            assert forall|x: int, y: int| 0 <= x < y < qb.len() implies prio_lt(qb[x].0, qb[y].0) by {
                assert(qb[x].0 == xb[x].priority && qb[y].0 == xb[y].priority);
            }
        }
        lemma_sorted_determined(qa, qb, prio_lt);
        assert(xa.map_values(|g: LinkGroup| g@) =~= xb.map_values(|g: LinkGroup| g@)) by {
            assert forall|j: int| 0 <= j < xa.len() implies xa[j]@ == xb[j]@ by {
                assert(qa[j] == qb[j]);
            }
        }
    }
    assert(la =~= lb);
}

/// Why a persisted configuration could not be read.
#[derive(Clone, Copy, Debug, PartialEq, Eq, Structural)]
pub enum ParseError {
    /// The text holds no line at all, not even the command directory.
    Empty,
    /// A priority line is not an unsigned 64-bit decimal number.
    BadPriority,
}

/// Where the reader stands in the line grammar.
pub ghost enum Mode {
    /// Before the command-directory line.
    Start,
    /// Expecting an active group name, or a blank line.
    ActiveName,
    /// Expecting the active priority for the name.
    ActivePriority(Seq<char>),
    /// Expecting a standalone link name, or a blank line.
    LinkName,
    /// Expecting the path of the named standalone link.
    LinkPath(Seq<char>),
    /// Expecting a group name.
    GroupName,
    /// Expecting the base path that opens a group record.
    Base,
    /// Expecting the record's priority; a blank line ends the name's list.
    Priority,
    /// Expecting a link name of the record, or the blank line that closes it.
    EntryLinkName,
    /// Expecting the path of the named link of the record.
    EntryLinkPath(Seq<char>),
}

/// The reader's state: where it stands, what it has read, the group name
/// and list in progress, and the group record in progress.
pub ghost struct ReadState {
    pub mode: Mode,
    pub store: StoreView,
    pub name: Seq<char>,
    pub list: Map<u64, GroupView>,
    pub entry: GroupView,
}

/// The state before any line.
pub open spec fn initial_state() -> ReadState {
    ReadState {
        mode: Mode::Start,
        store: StoreView {
            cmd_dir: Seq::empty(),
            active: Map::empty(),
            links: Seq::empty(),
            groups: Map::empty(),
        },
        name: Seq::empty(),
        list: Map::empty(),
        entry: GroupView {
            name: Seq::empty(),
            base_path: Seq::empty(),
            priority: 0,
            links: Seq::empty(),
        },
    }
}

/// What reading the (trimmed) line `l` does in state `s`.
pub open spec fn read_step(s: ReadState, l: Seq<char>) -> Result<ReadState, ParseError> {
    match s.mode {
        Mode::Start => Ok(
            ReadState { mode: Mode::ActiveName, store: StoreView { cmd_dir: l, ..s.store }, ..s },
        ),
        Mode::ActiveName => if l.len() == 0 {
            Ok(ReadState { mode: Mode::LinkName, ..s })
        } else {
            Ok(ReadState { mode: Mode::ActivePriority(l), ..s })
        },
        Mode::ActivePriority(n) => if l.len() == 0 {
            Ok(ReadState { mode: Mode::LinkName, ..s })
        } else {
            match parse_u64(l) {
                None => Err(ParseError::BadPriority),
                Some(p) => Ok(
                    ReadState {
                        mode: Mode::ActiveName,
                        store: StoreView { active: s.store.active.insert(n, p), ..s.store },
                        ..s
                    },
                ),
            }
        },
        Mode::LinkName => if l.len() == 0 {
            Ok(ReadState { mode: Mode::GroupName, ..s })
        } else {
            Ok(ReadState { mode: Mode::LinkPath(l), ..s })
        },
        Mode::LinkPath(n) => if l.len() == 0 {
            Ok(ReadState { mode: Mode::GroupName, ..s })
        } else {
            Ok(
                ReadState {
                    mode: Mode::LinkName,
                    store: StoreView {
                        links: put_link(s.store.links, LinkView { name: n, path: l }),
                        ..s.store
                    },
                    ..s
                },
            )
        },
        Mode::GroupName => Ok(ReadState { mode: Mode::Base, name: l, list: Map::empty(), ..s }),
        Mode::Base => Ok(
            ReadState {
                mode: Mode::Priority,
                entry: GroupView { name: s.name, base_path: l, priority: 0, links: Seq::empty() },
                ..s
            },
        ),
        Mode::Priority => if l.len() == 0 {
            Ok(
                ReadState {
                    mode: Mode::GroupName,
                    store: StoreView { groups: s.store.groups.insert(s.name, s.list), ..s.store },
                    list: Map::empty(),
                    ..s
                },
            )
        } else {
            match parse_u64(l) {
                None => Err(ParseError::BadPriority),
                Some(p) => Ok(
                    ReadState {
                        mode: Mode::EntryLinkName,
                        entry: GroupView { priority: p, ..s.entry },
                        ..s
                    },
                ),
            }
        },
        Mode::EntryLinkName => if l.len() == 0 {
            Ok(
                ReadState {
                    mode: Mode::Base,
                    list: s.list.insert(s.entry.priority, s.entry),
                    ..s
                },
            )
        } else {
            Ok(ReadState { mode: Mode::EntryLinkPath(l), ..s })
        },
        Mode::EntryLinkPath(n) => if l.len() == 0 {
            Ok(
                ReadState {
                    mode: Mode::Base,
                    list: s.list.insert(s.entry.priority, s.entry),
                    ..s
                },
            )
        } else {
            Ok(
                ReadState {
                    mode: Mode::EntryLinkName,
                    entry: GroupView {
                        links: put_link(s.entry.links, LinkView { name: n, path: l }),
                        ..s.entry
                    },
                    ..s
                },
            )
        },
    }
}

/// Reads `lines` in order from state `s`, stopping at the first error.
pub open spec fn read_lines(s: ReadState, lines: Seq<Seq<char>>) -> Result<ReadState, ParseError>
    decreases lines.len(),
{
    if lines.len() == 0 {
        Ok(s)
    } else {
        match read_step(s, lines[0]) {
            Ok(t) => read_lines(t, lines.drop_first()),
            Err(e) => Err(e),
        }
    }
}

/// What the end of the text does in state `s`: a record in progress is
/// dropped, the list in progress is stored under its name.
pub open spec fn read_end(s: ReadState) -> Result<StoreView, ParseError> {
    match s.mode {
        Mode::Start => Err(ParseError::Empty),
        Mode::Base | Mode::Priority | Mode::EntryLinkName | Mode::EntryLinkPath(_) => Ok(
            StoreView { groups: s.store.groups.insert(s.name, s.list), ..s.store },
        ),

        _ => Ok(s.store),
    }
}

/// The store that the text `t` describes.
pub open spec fn parse_text(t: Seq<char>) -> Result<StoreView, ParseError> {
    match read_lines(initial_state(), split_lines(t)) {
        Ok(s) => read_end(s),
        Err(e) => Err(e),
    }
}

/// Where the reader stands, as values.
enum ReadMode {
    Start,
    ActiveName,
    ActivePriority(String),
    LinkName,
    LinkPath(String),
    GroupName,
    Base,
    Priority,
    EntryLinkName,
    EntryLinkPath(String),
}

impl View for ReadMode {
    type V = Mode;

    closed spec fn view(&self) -> Mode {
        match self {
            ReadMode::Start => Mode::Start,
            ReadMode::ActiveName => Mode::ActiveName,
            ReadMode::ActivePriority(n) => Mode::ActivePriority(n@),
            ReadMode::LinkName => Mode::LinkName,
            ReadMode::LinkPath(n) => Mode::LinkPath(n@),
            ReadMode::GroupName => Mode::GroupName,
            ReadMode::Base => Mode::Base,
            ReadMode::Priority => Mode::Priority,
            ReadMode::EntryLinkName => Mode::EntryLinkName,
            ReadMode::EntryLinkPath(n) => Mode::EntryLinkPath(n@),
        }
    }
}

/// The reader, as values.
struct Reader {
    mode: ReadMode,
    config: Config,
    name: String,
    list: Vec<LinkGroup>,
    entry: LinkGroup,
}

impl View for Reader {
    type V = ReadState;

    closed spec fn view(&self) -> ReadState {
        ReadState {
            mode: self.mode@,
            store: self.config@,
            name: self.name@,
            list: priority_map(self.list@),
            entry: self.entry@,
        }
    }
}

impl Reader {
    spec fn inv(&self) -> bool {
        &&& self.config.wf()
        &&& self.config.lists_sorted()
        &&& list_wf(self.name@, self.list@)
        &&& sorted_desc(self.list@)
        &&& (self.mode is Priority || self.mode is EntryLinkName || self.mode is EntryLinkPath)
            ==> self.entry.name@ == self.name@ && self.entry.wf()
    }

    fn new() -> (r: Reader)
        ensures
            r.inv(),
            r@ == initial_state(),
    {
        let r = Reader {
            mode: ReadMode::Start,
            config: Config::new(String::new()),
            name: String::new(),
            list: Vec::new(),
            entry: LinkGroup::new(String::new(), 0),
        };
        proof {
            assert(priority_map(r.list@) =~= Map::<u64, GroupView>::empty()) by {
                assert(crate::store::priority_pairs(r.list@) =~= Seq::<(u64, GroupView)>::empty());
            }
            assert(r.entry@.links =~= Seq::<LinkView>::empty());
        }
        r
    }

    fn step(self, l: String) -> (r: Result<Reader, ParseError>)
        requires
            self.inv(),
        ensures
            match r {
                Ok(t) => t.inv() && read_step(self@, l@) == Ok::<ReadState, ParseError>(t@),
                Err(e) => read_step(self@, l@) == Err::<ReadState, ParseError>(e),
            },
    {
        let ghost s = self@;
        let Reader { mode, mut config, name, mut list, mut entry } = self;
        let empty = l.as_str().is_empty();
        match mode {
            ReadMode::Start => {
                config.set_cmd_dir_str(l);
                Ok(Reader { mode: ReadMode::ActiveName, config, name, list, entry })
            },
            ReadMode::ActiveName => {
                if empty {
                    Ok(Reader { mode: ReadMode::LinkName, config, name, list, entry })
                } else {
                    Ok(Reader { mode: ReadMode::ActivePriority(l), config, name, list, entry })
                }
            },
            ReadMode::ActivePriority(n) => {
                if empty {
                    Ok(Reader { mode: ReadMode::LinkName, config, name, list, entry })
                } else {
                    match parse_priority(l.as_str()) {
                        None => Err(ParseError::BadPriority),
                        Some(p) => {
                            config.set_active(&n, &p);
                            Ok(Reader { mode: ReadMode::ActiveName, config, name, list, entry })
                        },
                    }
                }
            },
            ReadMode::LinkName => {
                if empty {
                    Ok(Reader { mode: ReadMode::GroupName, config, name, list, entry })
                } else {
                    Ok(Reader { mode: ReadMode::LinkPath(l), config, name, list, entry })
                }
            },
            ReadMode::LinkPath(n) => {
                if empty {
                    Ok(Reader { mode: ReadMode::GroupName, config, name, list, entry })
                } else {
                    config.add_link(Link::new(n, l));
                    Ok(Reader { mode: ReadMode::LinkName, config, name, list, entry })
                }
            },
            ReadMode::GroupName => {
                let list: Vec<LinkGroup> = Vec::new();
                proof {
                    assert(priority_map(list@) =~= Map::<u64, GroupView>::empty()) by {
                        assert(crate::store::priority_pairs(list@) =~= Seq::<(u64, GroupView)>::empty());
                    }
                }
                Ok(Reader { mode: ReadMode::Base, config, name: l, list, entry })
            },
            ReadMode::Base => {
                let mut entry = LinkGroup::new(name.clone(), 0);
                entry.set_base_path(l);
                proof {
                    assert(entry@.links =~= Seq::<LinkView>::empty());
                }
                Ok(Reader { mode: ReadMode::Priority, config, name, list, entry })
            },
            ReadMode::Priority => {
                if empty {
                    config.put_group_list(name.clone(), list);
                    let list: Vec<LinkGroup> = Vec::new();
                    proof {
                        assert(priority_map(list@) =~= Map::<u64, GroupView>::empty()) by {
                            assert(crate::store::priority_pairs(list@) =~= Seq::<(u64, GroupView)>::empty());
                        }
                    }
                    Ok(Reader { mode: ReadMode::GroupName, config, name, list, entry })
                } else {
                    match parse_priority(l.as_str()) {
                        None => Err(ParseError::BadPriority),
                        Some(p) => {
                            entry.priority = p;
                            Ok(Reader { mode: ReadMode::EntryLinkName, config, name, list, entry })
                        },
                    }
                }
            },
            ReadMode::EntryLinkName => {
                if empty {
                    put_sorted(&mut list, entry.clone());
                    Ok(Reader { mode: ReadMode::Base, config, name, list, entry })
                } else {
                    Ok(Reader { mode: ReadMode::EntryLinkPath(l), config, name, list, entry })
                }
            },
            ReadMode::EntryLinkPath(n) => {
                if empty {
                    put_sorted(&mut list, entry.clone());
                    Ok(Reader { mode: ReadMode::Base, config, name, list, entry })
                } else {
                    entry.add_link(Link::new(n, l));
                    Ok(Reader { mode: ReadMode::EntryLinkName, config, name, list, entry })
                }
            },
        }
    }

    fn finish(self) -> (r: Result<Config, ParseError>)
        requires
            self.inv(),
        ensures
            match r {
                Ok(c) => c.wf() && c.lists_sorted() && read_end(self@) == Ok::<StoreView, ParseError>(c@),
                Err(e) => read_end(self@) == Err::<StoreView, ParseError>(e),
            },
    {
        let Reader { mode, mut config, name, list, entry } = self;
        match mode {
            ReadMode::Start => Err(ParseError::Empty),
            ReadMode::Base | ReadMode::Priority | ReadMode::EntryLinkName | ReadMode::EntryLinkPath(_) => {
                config.put_group_list(name.clone(), list);
                Ok(config)
            },
            _ => Ok(config),
        }
    }
}

impl Config {
    /// Reads a configuration from its persisted form. Lines are trimmed; group
    /// lists come out in descending order of priority, a later record or name
    /// replacing an earlier one with the same key.
    pub fn from_text(text: &str) -> (r: Result<Config, ParseError>)
        ensures
            match r {
                Ok(c) => c.wf() && c.lists_sorted() && parse_text(text@) == Ok::<StoreView, ParseError>(c@),
                Err(e) => parse_text(text@) == Err::<StoreView, ParseError>(e),
            },
    {
        let lines = lines_of(text);
        let ghost ls = string_views(lines@);
        let mut rd = Reader::new();
        let mut i: usize = 0;
        proof {
            assert(ls.subrange(0, ls.len() as int) =~= ls);
        }
        while i < lines.len()
            invariant
                i <= lines@.len(),
                ls == string_views(lines@),
                ls == split_lines(text@),
                rd.inv(),
                read_lines(initial_state(), ls) == read_lines(rd@, ls.subrange(i as int, ls.len() as int)),
            decreases lines.len() - i,
        {
            let ghost rest = ls.subrange(i as int, ls.len() as int);
            proof {
                assert(rest[0] == lines@[i as int]@);
                assert(rest.drop_first() =~= ls.subrange(i + 1, ls.len() as int));
            }
            let l = lines[i].clone();
            match rd.step(l) {
                Ok(next) => {
                    rd = next;
                },
                Err(e) => {
                    return Err(e);
                },
            }
            i = i + 1;
        }
        proof {
            assert(ls.subrange(i as int, ls.len() as int) =~= Seq::<Seq<char>>::empty());
        }
        rd.finish()
    }
}

} // verus!
