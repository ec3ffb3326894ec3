use vstd::prelude::*;
use crate::link::{LinkView, names_unique, put_link};
use crate::group::{LinkGroup, GroupView, link_views};
use crate::store::{Config, StoreView, active_pairs, group_pairs, priority_pairs, list_wf};
use crate::text::{trim, trim_start, trim_end, lines_from, split_lines, decimal, digit_char,
    digits_value, all_digits, is_digit, parse_u64};
use crate::codec::{line, active_text, links_text, group_text, list_text, groups_text, group_lists,
    render, saved_text, Mode, ReadState, ParseError, read_step, read_lines, parse_text,
    initial_state};
use crate::pairs::pairs_to_map;

verus! {

/// `s` can stand on a line of its own and read back the same: it holds no
/// newline and nothing that trimming would remove.
pub open spec fn clean(s: Seq<char>) -> bool {
    &&& forall|i: int| 0 <= i < s.len() ==> s[i] != '\n'
    &&& trim(s) == s
}

/// `s` is clean and not empty, so it is not read as a section end.
pub open spec fn nonblank(s: Seq<char>) -> bool {
    clean(s) && s.len() > 0
}

/// Every link has a nonblank name and path.
pub open spec fn links_persistable(l: Seq<LinkView>) -> bool {
    forall|i: int| 0 <= i < l.len() ==> nonblank((#[trigger] l[i]).name) && nonblank(l[i].path)
}

/// Every group of a list has a clean base path and persistable links.
pub open spec fn groups_persistable(gs: Seq<GroupView>) -> bool {
    forall|j: int| 0 <= j < gs.len() ==> clean((#[trigger] gs[j]).base_path) && links_persistable(gs[j].links)
}

/// Every string of `c` survives the line format: active names and link names
/// and paths are nonblank, the command directory, group names and base paths
/// are clean.
pub open spec fn persistable(c: Config) -> bool {
    &&& clean(c.cmd_dir_str@)
    &&& forall|i: int| 0 <= i < c.active_configs@.len() ==> nonblank((#[trigger] c.active_configs@[i]).0@)
    &&& links_persistable(link_views(c.links@))
    &&& forall|i: int| 0 <= i < c.config_map@.len() ==> clean((#[trigger] c.config_map@[i]).0@)
        && groups_persistable(c.config_map@[i].1@.map_values(|g: LinkGroup| g@))
}

/// The text of lines `ls`, each followed by a newline.
pub open spec fn joined(ls: Seq<Seq<char>>) -> Seq<char>
    decreases ls.len(),
{
    if ls.len() == 0 {
        Seq::empty()
    } else {
        line(ls[0]) + joined(ls.drop_first())
    }
}

/// The lines of the active section.
pub open spec fn active_lines(a: Seq<(Seq<char>, u64)>) -> Seq<Seq<char>>
    decreases a.len(),
{
    if a.len() == 0 {
        Seq::empty()
    } else {
        active_lines(a.drop_last()) + seq![a.last().0, decimal(a.last().1 as nat)]
    }
}

/// The lines of a run of links.
pub open spec fn links_lines(l: Seq<LinkView>) -> Seq<Seq<char>>
    decreases l.len(),
{
    if l.len() == 0 {
        Seq::empty()
    } else {
        links_lines(l.drop_last()) + seq![l.last().name, l.last().path]
    }
}

/// The lines of one group record.
pub open spec fn group_lines(g: GroupView) -> Seq<Seq<char>> {
    seq![g.base_path, decimal(g.priority as nat)] + links_lines(g.links) + seq![Seq::<char>::empty()]
}

/// The lines of the records of one group list.
pub open spec fn list_lines(gs: Seq<GroupView>) -> Seq<Seq<char>>
    decreases gs.len(),
{
    if gs.len() == 0 {
        Seq::empty()
    } else {
        list_lines(gs.drop_last()) + group_lines(gs.last())
    }
}

/// The lines of the group section.
pub open spec fn groups_lines(gl: Seq<(Seq<char>, Seq<GroupView>)>) -> Seq<Seq<char>>
    decreases gl.len(),
{
    if gl.len() == 0 {
        Seq::empty()
    } else {
        groups_lines(gl.drop_last()) + seq![gl.last().0] + list_lines(gl.last().1) + seq![
            Seq::<char>::empty(),
            Seq::<char>::empty(),
        ]
    }
}

/// The lines that `render` writes.
pub open spec fn render_lines(
    cmd: Seq<char>,
    a: Seq<(Seq<char>, u64)>,
    l: Seq<LinkView>,
    gl: Seq<(Seq<char>, Seq<GroupView>)>,
) -> Seq<Seq<char>> {
    seq![cmd] + active_lines(a) + seq![Seq::<char>::empty()] + links_lines(l) + seq![
        Seq::<char>::empty(),
    ] + groups_lines(gl)
}

/// Joining concatenated lines concatenates the texts.
proof fn lemma_joined_append(a: Seq<Seq<char>>, b: Seq<Seq<char>>)
    ensures
        joined(a + b) == joined(a) + joined(b),
    decreases a.len(),
{
    if a.len() == 0 {
        assert(a + b =~= b);
        assert(joined(a) + joined(b) =~= joined(b));
    } else {
        assert((a + b)[0] == a[0]);
        assert((a + b).drop_first() =~= a.drop_first() + b);
        lemma_joined_append(a.drop_first(), b);
        assert(line(a[0]) + (joined(a.drop_first()) + joined(b)) =~= (line(a[0]) + joined(
            a.drop_first(),
        )) + joined(b));
    }
}

proof fn lemma_joined_one(x: Seq<char>)
    ensures
        joined(seq![x]) == line(x),
{
    reveal_with_fuel(joined, 2);
    assert(seq![x].drop_first() =~= Seq::<Seq<char>>::empty());
    assert(line(x) + Seq::<char>::empty() =~= line(x));
}

proof fn lemma_joined_two(x: Seq<char>, y: Seq<char>)
    ensures
        joined(seq![x, y]) == line(x) + line(y),
{
    assert(seq![x, y].drop_first() =~= seq![y]);
    lemma_joined_one(y);
}

/// Each text of the writer is its lines, joined.
proof fn lemma_active_text(a: Seq<(Seq<char>, u64)>)
    ensures
        active_text(a) == joined(active_lines(a)),
    decreases a.len(),
{
    if a.len() > 0 {
        lemma_active_text(a.drop_last());
        let x = a.last().0;
        let y = decimal(a.last().1 as nat);
        lemma_joined_append(active_lines(a.drop_last()), seq![x, y]);
        lemma_joined_two(x, y);
        assert(active_text(a) =~= joined(active_lines(a)));
    }
}

proof fn lemma_links_text(l: Seq<LinkView>)
    ensures
        links_text(l) == joined(links_lines(l)),
    decreases l.len(),
{
    if l.len() > 0 {
        lemma_links_text(l.drop_last());
        let x = l.last().name;
        let y = l.last().path;
        lemma_joined_append(links_lines(l.drop_last()), seq![x, y]);
        lemma_joined_two(x, y);
        assert(links_text(l) =~= joined(links_lines(l)));
    }
}

proof fn lemma_group_text(g: GroupView)
    ensures
        group_text(g) == joined(group_lines(g)),
{
    let h = seq![g.base_path, decimal(g.priority as nat)];
    let e = seq![Seq::<char>::empty()];
    lemma_joined_append(h + links_lines(g.links), e);
    lemma_joined_append(h, links_lines(g.links));
    lemma_joined_two(g.base_path, decimal(g.priority as nat));
    lemma_joined_one(Seq::<char>::empty());
    lemma_links_text(g.links);
    assert(group_text(g) =~= joined(group_lines(g)));
}

proof fn lemma_list_text(gs: Seq<GroupView>)
    ensures
        list_text(gs) == joined(list_lines(gs)),
    decreases gs.len(),
{
    if gs.len() > 0 {
        lemma_list_text(gs.drop_last());
        lemma_group_text(gs.last());
        lemma_joined_append(list_lines(gs.drop_last()), group_lines(gs.last()));
    }
}

proof fn lemma_groups_text(gl: Seq<(Seq<char>, Seq<GroupView>)>)
    ensures
        groups_text(gl) == joined(groups_lines(gl)),
    decreases gl.len(),
{
    if gl.len() > 0 {
        let prev = groups_lines(gl.drop_last());
        let n = seq![gl.last().0];
        let body = list_lines(gl.last().1);
        let tail = seq![Seq::<char>::empty(), Seq::<char>::empty()];
        lemma_groups_text(gl.drop_last());
        lemma_list_text(gl.last().1);
        lemma_joined_append(prev + n + body, tail);
        lemma_joined_append(prev + n, body);
        lemma_joined_append(prev, n);
        lemma_joined_one(gl.last().0);
        lemma_joined_two(Seq::<char>::empty(), Seq::<char>::empty());
        assert(groups_text(gl) =~= joined(groups_lines(gl)));
    }
}

proof fn lemma_render_text(
    cmd: Seq<char>,
    a: Seq<(Seq<char>, u64)>,
    l: Seq<LinkView>,
    gl: Seq<(Seq<char>, Seq<GroupView>)>,
)
    ensures
        render(cmd, a, l, gl) == joined(render_lines(cmd, a, l, gl)),
{
    let e = seq![Seq::<char>::empty()];
    let p1 = seq![cmd];
    let p2 = p1 + active_lines(a);
    let p3 = p2 + e;
    let p4 = p3 + links_lines(l);
    let p5 = p4 + e;
    lemma_joined_append(p5, groups_lines(gl));
    lemma_joined_append(p4, e);
    lemma_joined_append(p3, links_lines(l));
    lemma_joined_append(p2, e);
    lemma_joined_append(p1, active_lines(a));
    lemma_joined_one(cmd);
    lemma_joined_one(Seq::<char>::empty());
    lemma_active_text(a);
    lemma_links_text(l);
    lemma_groups_text(gl);
    assert(render(cmd, a, l, gl) =~= joined(render_lines(cmd, a, l, gl)));
}

/// A line with no newline, its newline, and the rest split into the line
/// (trimmed) and the rest's lines.
proof fn lemma_lines_from_line(l: Seq<char>, rest: Seq<char>, cur: Seq<char>)
    requires
        forall|i: int| 0 <= i < l.len() ==> l[i] != '\n',
    ensures
        lines_from(l + seq!['\n'] + rest, cur) == seq![trim(cur + l)] + lines_from(rest, Seq::empty()),
    decreases l.len(),
{
    let t = l + seq!['\n'] + rest;
    if l.len() == 0 {
        assert(t[0] == '\n');
        assert(t.drop_first() =~= rest);
        assert(cur + l =~= cur);
    } else {
        assert(t[0] == l[0]);
        let l2 = l.drop_first();
        assert(t.drop_first() =~= l2 + seq!['\n'] + rest);
        lemma_lines_from_line(l2, rest, cur.push(l[0]));
        assert(cur.push(l[0]) + l2 =~= cur + l);
    }
}

/// Clean lines, joined, split back into themselves.
proof fn lemma_split_joined(ls: Seq<Seq<char>>)
    requires
        forall|i: int| 0 <= i < ls.len() ==> clean(#[trigger] ls[i]),
    ensures
        split_lines(joined(ls)) == ls,
    decreases ls.len(),
{
    if ls.len() > 0 {
        let rest = ls.drop_first();
        assert forall|i: int| 0 <= i < rest.len() implies clean(#[trigger] rest[i]) by {
            assert(rest[i] == ls[i + 1]);
        }
        lemma_split_joined(rest);
        assert(clean(ls[0]));
        assert(line(ls[0]) + joined(rest) =~= ls[0] + seq!['\n'] + joined(rest));
        lemma_lines_from_line(ls[0], joined(rest), Seq::empty());
        assert(Seq::<char>::empty() + ls[0] =~= ls[0]);
        assert(seq![ls[0]] + rest =~= ls);
    } else {
        assert(joined(ls) =~= Seq::<char>::empty());
    }
}

/// The digit character of `d` is the digit whose value is `d`.
proof fn lemma_digit_char(d: int)
    requires
        0 <= d < 10,
    ensures
        is_digit(digit_char(d)),
        crate::text::digit_value(digit_char(d)) == d,
{
}

/// A decimal form is a nonblank line that reads back as its number.
proof fn lemma_decimal(n: u64)
    ensures
        nonblank(decimal(n as nat)),
        all_digits(decimal(n as nat)),
        digits_value(decimal(n as nat)) == n,
        parse_u64(decimal(n as nat)) == Some(n),
    decreases n,
{
    let s = decimal(n as nat);
    if n < 10 {
        lemma_digit_char(n as int);
        assert(s.drop_last() =~= Seq::<char>::empty());
        assert(s.last() == digit_char(n as int));
        assert(digits_value(s.drop_last()) == 0);
        assert(digits_value(s) == n);
    } else {
        let q = n / 10;
        lemma_decimal(q);
        lemma_digit_char((n % 10) as int);
        let p = decimal(q as nat);
        assert(s =~= p + seq![digit_char((n % 10) as int)]);
        assert(s.drop_last() =~= p);
        assert(s.last() == digit_char((n % 10) as int));
        assert(digits_value(s) == digits_value(p) * 10 + (n % 10) as int);
        assert(digits_value(s) == n);
        assert forall|i: int| 0 <= i < s.len() implies is_digit(#[trigger] s[i]) by {
            if i < p.len() {
                assert(s[i] == p[i]);
            }
        }
    }
    assert(!crate::text::white_space(s[0]));
    assert(!crate::text::white_space(s.last()));
    assert(trim_start(s) == s);
    assert(trim_end(s) == s);
    assert forall|i: int| 0 <= i < s.len() implies s[i] != '\n' by {
        assert(is_digit(s[i]));
    }
    assert(s[0] != '+');
}

/// Reading `a + b` is reading `a`, then `b` from where it ended.
proof fn lemma_read_append(s: ReadState, a: Seq<Seq<char>>, b: Seq<Seq<char>>)
    ensures
        read_lines(s, a + b) == match read_lines(s, a) {
            Ok(t) => read_lines(t, b),
            Err(e) => Err(e),
        },
    decreases a.len(),
{
    if a.len() == 0 {
        assert(a + b =~= b);
    } else {
        assert((a + b)[0] == a[0]);
        assert((a + b).drop_first() =~= a.drop_first() + b);
        match read_step(s, a[0]) {
            Ok(t) => {
                lemma_read_append(t, a.drop_first(), b);
            },
            Err(_) => {},
        }
    }
}

/// Reading two lines.
proof fn lemma_read_two(s: ReadState, x: Seq<char>, y: Seq<char>)
    ensures
        read_lines(s, seq![x, y]) == match read_step(s, x) {
            Ok(t) => match read_step(t, y) {
                Ok(u) => Ok(u),
                Err(e) => Err(e),
            },
            Err(e) => Err(e),
        },
{
    reveal_with_fuel(read_lines, 3);
    assert(seq![x, y].drop_first() =~= seq![y]);
    assert(seq![y].drop_first() =~= Seq::<Seq<char>>::empty());
}

/// Reading one line.
proof fn lemma_read_one(s: ReadState, x: Seq<char>)
    ensures
        read_lines(s, seq![x]) == match read_step(s, x) {
            Ok(t) => Ok(t),
            Err(e) => Err(e),
        },
{
    reveal_with_fuel(read_lines, 2);
    assert(seq![x].drop_first() =~= Seq::<Seq<char>>::empty());
}

/// Every line of `ls` is clean.
pub open spec fn all_clean(ls: Seq<Seq<char>>) -> bool {
    forall|i: int| 0 <= i < ls.len() ==> clean(#[trigger] ls[i])
}

/// Clean lines concatenated stay clean.
proof fn lemma_all_clean_append(a: Seq<Seq<char>>, b: Seq<Seq<char>>)
    requires
        all_clean(a),
        all_clean(b),
    ensures
        all_clean(a + b),
{
    assert forall|i: int| 0 <= i < (a + b).len() implies clean(#[trigger] (a + b)[i]) by {
        if i < a.len() {
            assert((a + b)[i] == a[i]);
        } else {
            assert((a + b)[i] == b[i - a.len()]);
        }
    }
}

/// The blank line is clean.
proof fn lemma_empty_clean()
    ensures
        clean(Seq::<char>::empty()),
        all_clean(seq![Seq::<char>::empty()]),
        all_clean(seq![Seq::<char>::empty(), Seq::<char>::empty()]),
{
    assert(trim(Seq::<char>::empty()) == Seq::<char>::empty());
}

/// The lines the writer emits for persistable content are clean.
proof fn lemma_links_lines_clean(l: Seq<LinkView>)
    requires
        links_persistable(l),
    ensures
        all_clean(links_lines(l)),
    decreases l.len(),
{
    if l.len() > 0 {
        let l2 = l.drop_last();
        assert forall|i: int| 0 <= i < l2.len() implies nonblank((#[trigger] l2[i]).name) && nonblank(
            l2[i].path,
        ) by {
            assert(l2[i] == l[i]);
        }
        lemma_links_lines_clean(l2);
        assert(nonblank(l[l.len() - 1].name));
        lemma_all_clean_append(links_lines(l2), seq![l.last().name, l.last().path]);
    }
}

proof fn lemma_active_lines_clean(a: Seq<(Seq<char>, u64)>)
    requires
        forall|i: int| 0 <= i < a.len() ==> nonblank((#[trigger] a[i]).0),
    ensures
        all_clean(active_lines(a)),
    decreases a.len(),
{
    if a.len() > 0 {
        let a2 = a.drop_last();
        assert forall|i: int| 0 <= i < a2.len() implies nonblank((#[trigger] a2[i]).0) by {
            assert(a2[i] == a[i]);
        }
        lemma_active_lines_clean(a2);
        assert(nonblank(a[a.len() - 1].0));
        lemma_decimal(a.last().1);
        lemma_all_clean_append(active_lines(a2), seq![a.last().0, decimal(a.last().1 as nat)]);
    }
}

proof fn lemma_list_lines_clean(gs: Seq<GroupView>)
    requires
        groups_persistable(gs),
    ensures
        all_clean(list_lines(gs)),
    decreases gs.len(),
{
    if gs.len() > 0 {
        let g2 = gs.drop_last();
        assert forall|j: int| 0 <= j < g2.len() implies clean((#[trigger] g2[j]).base_path)
            && links_persistable(g2[j].links) by {
            assert(g2[j] == gs[j]);
        }
        lemma_list_lines_clean(g2);
        let g = gs.last();
        assert(clean(gs[gs.len() - 1].base_path));
        lemma_decimal(g.priority);
        lemma_links_lines_clean(g.links);
        lemma_empty_clean();
        let h = seq![g.base_path, decimal(g.priority as nat)];
        lemma_all_clean_append(h, links_lines(g.links));
        lemma_all_clean_append(h + links_lines(g.links), seq![Seq::<char>::empty()]);
        lemma_all_clean_append(list_lines(g2), group_lines(g));
    }
}

/// What the group lists must satisfy to read back: clean strings, groups
/// filed under their own name, unique link names within each group.
pub open spec fn lists_persistable(gl: Seq<(Seq<char>, Seq<GroupView>)>) -> bool {
    forall|i: int|
        0 <= i < gl.len() ==> clean((#[trigger] gl[i]).0) && groups_persistable(gl[i].1) && forall|j: int|
            0 <= j < gl[i].1.len() ==> (#[trigger] gl[i].1[j]).name == gl[i].0 && names_unique(
                gl[i].1[j].links,
            )
}

proof fn lemma_groups_lines_clean(gl: Seq<(Seq<char>, Seq<GroupView>)>)
    requires
        lists_persistable(gl),
    ensures
        all_clean(groups_lines(gl)),
    decreases gl.len(),
{
    if gl.len() > 0 {
        let g2 = gl.drop_last();
        assert forall|i: int| 0 <= i < g2.len() implies clean((#[trigger] g2[i]).0) && groups_persistable(
            g2[i].1,
        ) && forall|j: int| 0 <= j < g2[i].1.len() ==> (#[trigger] g2[i].1[j]).name == g2[i].0
            && names_unique(g2[i].1[j].links) by {
            assert(g2[i] == gl[i]);
        }
        lemma_groups_lines_clean(g2);
        let e = gl.last();
        assert(clean(gl[gl.len() - 1].0));
        lemma_list_lines_clean(e.1);
        lemma_empty_clean();
        assert(all_clean(seq![e.0]));
        lemma_all_clean_append(groups_lines(g2), seq![e.0]);
        lemma_all_clean_append(groups_lines(g2) + seq![e.0], list_lines(e.1));
        lemma_all_clean_append(
            groups_lines(g2) + seq![e.0] + list_lines(e.1),
            seq![Seq::<char>::empty(), Seq::<char>::empty()],
        );
    }
}

/// Reading the active section from its start fills the active map.
proof fn lemma_read_active(s: ReadState, a: Seq<(Seq<char>, u64)>)
    requires
        s.mode == Mode::ActiveName,
        s.store.active == Map::<Seq<char>, u64>::empty(),
        forall|i: int| 0 <= i < a.len() ==> nonblank((#[trigger] a[i]).0),
    ensures
        read_lines(s, active_lines(a)) == Ok::<ReadState, ParseError>(
            ReadState { store: StoreView { active: pairs_to_map(a), ..s.store }, ..s },
        ),
    decreases a.len(),
{
    if a.len() == 0 {
        assert(pairs_to_map(a) == Map::<Seq<char>, u64>::empty());
        assert(s == ReadState { store: StoreView { active: pairs_to_map(a), ..s.store }, ..s });
    } else {
        let a2 = a.drop_last();
        assert forall|i: int| 0 <= i < a2.len() implies nonblank((#[trigger] a2[i]).0) by {
            assert(a2[i] == a[i]);
        }
        lemma_read_active(s, a2);
        let t = ReadState { store: StoreView { active: pairs_to_map(a2), ..s.store }, ..s };
        let n = a.last().0;
        let p = a.last().1;
        assert(nonblank(a[a.len() - 1].0));
        lemma_decimal(p);
        lemma_read_append(s, active_lines(a2), seq![n, decimal(p as nat)]);
        lemma_read_two(t, n, decimal(p as nat));
    }
}

/// Reading a run of standalone links appends them in order.
proof fn lemma_read_links(s: ReadState, l: Seq<LinkView>)
    requires
        s.mode == Mode::LinkName,
        s.store.links == Seq::<LinkView>::empty(),
        links_persistable(l),
        names_unique(l),
    ensures
        read_lines(s, links_lines(l)) == Ok::<ReadState, ParseError>(
            ReadState { store: StoreView { links: l, ..s.store }, ..s },
        ),
    decreases l.len(),
{
    if l.len() == 0 {
        assert(s.store.links =~= l);
        assert(s == ReadState { store: StoreView { links: l, ..s.store }, ..s });
    } else {
        let l2 = l.drop_last();
        assert forall|i: int| 0 <= i < l2.len() implies nonblank((#[trigger] l2[i]).name) && nonblank(
            l2[i].path,
        ) by {
            assert(l2[i] == l[i]);
        }
        assert(names_unique(l2)) by {
            assert forall|x: int, y: int|
                0 <= x < l2.len() && 0 <= y < l2.len() && #[trigger] l2[x].name == #[trigger] l2[y].name
                implies x == y by {
                assert(l2[x] == l[x] && l2[y] == l[y]);
            }
        }
        assert forall|x: int| 0 <= x < l2.len() implies #[trigger] l2[x].name != l.last().name by {
            assert(l2[x] == l[x]);
            assert(l[x].name != l[l.len() - 1].name);
        }
        assert(put_link(l2, LinkView { name: l.last().name, path: l.last().path }) == l2.push(
            LinkView { name: l.last().name, path: l.last().path },
        ));
        lemma_read_links(s, l2);
        let t = ReadState { store: StoreView { links: l2, ..s.store }, ..s };
        assert(nonblank(l[l.len() - 1].name));
        lemma_read_append(s, links_lines(l2), seq![l.last().name, l.last().path]);
        lemma_read_two(t, l.last().name, l.last().path);
        assert(l2.push(LinkView { name: l.last().name, path: l.last().path }) =~= l);
    }
}

/// Reading a run of links inside a record gives the record those links.
proof fn lemma_read_entry_links(s: ReadState, l: Seq<LinkView>)
    requires
        s.mode == Mode::EntryLinkName,
        s.entry.links == Seq::<LinkView>::empty(),
        links_persistable(l),
        names_unique(l),
    ensures
        read_lines(s, links_lines(l)) == Ok::<ReadState, ParseError>(
            ReadState { entry: GroupView { links: l, ..s.entry }, ..s },
        ),
    decreases l.len(),
{
    if l.len() == 0 {
        assert(s.entry.links =~= l);
        assert(s == ReadState { entry: GroupView { links: l, ..s.entry }, ..s });
    } else {
        let l2 = l.drop_last();
        assert forall|i: int| 0 <= i < l2.len() implies nonblank((#[trigger] l2[i]).name) && nonblank(
            l2[i].path,
        ) by {
            assert(l2[i] == l[i]);
        }
        assert(names_unique(l2)) by {
            assert forall|x: int, y: int|
                0 <= x < l2.len() && 0 <= y < l2.len() && #[trigger] l2[x].name == #[trigger] l2[y].name
                implies x == y by {
                assert(l2[x] == l[x] && l2[y] == l[y]);
            }
        }
        assert forall|x: int| 0 <= x < l2.len() implies #[trigger] l2[x].name != l.last().name by {
            assert(l2[x] == l[x]);
            assert(l[x].name != l[l.len() - 1].name);
        }
        assert(put_link(l2, LinkView { name: l.last().name, path: l.last().path }) == l2.push(
            LinkView { name: l.last().name, path: l.last().path },
        ));
        lemma_read_entry_links(s, l2);
        let t = ReadState { entry: GroupView { links: l2, ..s.entry }, ..s };
        assert(nonblank(l[l.len() - 1].name));
        lemma_read_append(s, links_lines(l2), seq![l.last().name, l.last().path]);
        lemma_read_two(t, l.last().name, l.last().path);
        assert(l2.push(LinkView { name: l.last().name, path: l.last().path }) =~= l);
    }
}

/// Reading one group record adds the group to the list in progress.
proof fn lemma_read_group(s: ReadState, g: GroupView)
    requires
        s.mode == Mode::Base,
        g.name == s.name,
        clean(g.base_path),
        links_persistable(g.links),
        names_unique(g.links),
    ensures
        read_lines(s, group_lines(g)) is Ok,
        read_lines(s, group_lines(g))->Ok_0.mode == Mode::Base,
        read_lines(s, group_lines(g))->Ok_0.store == s.store,
        read_lines(s, group_lines(g))->Ok_0.name == s.name,
        read_lines(s, group_lines(g))->Ok_0.list == s.list.insert(g.priority, g),
{
    let d = decimal(g.priority as nat);
    lemma_decimal(g.priority);
    let h = seq![g.base_path, d];
    let t1 = ReadState {
        mode: Mode::EntryLinkName,
        entry: GroupView { name: s.name, base_path: g.base_path, priority: g.priority, links: Seq::empty() },
        ..s
    };
    lemma_read_two(s, g.base_path, d);
    assert(read_lines(s, h) == Ok::<ReadState, ParseError>(t1));
    lemma_read_entry_links(t1, g.links);
    let t2 = ReadState { entry: GroupView { links: g.links, ..t1.entry }, ..t1 };
    lemma_read_append(s, h, links_lines(g.links));
    lemma_read_append(s, h + links_lines(g.links), seq![Seq::<char>::empty()]);
    lemma_read_one(t2, Seq::<char>::empty());
    assert(t2.entry == g);
}

/// A list of group views keyed by priority.
pub open spec fn by_priority(gs: Seq<GroupView>) -> Map<u64, GroupView> {
    pairs_to_map(gs.map_values(|v: GroupView| (v.priority, v)))
}

/// Reading the records of a list gives the list keyed by priority.
proof fn lemma_read_list(s: ReadState, gs: Seq<GroupView>)
    requires
        s.mode == Mode::Base,
        s.list == Map::<u64, GroupView>::empty(),
        forall|j: int| 0 <= j < gs.len() ==> (#[trigger] gs[j]).name == s.name,
        forall|j: int| 0 <= j < gs.len() ==> names_unique((#[trigger] gs[j]).links),
        groups_persistable(gs),
    ensures
        read_lines(s, list_lines(gs)) is Ok,
        read_lines(s, list_lines(gs))->Ok_0.mode == Mode::Base,
        read_lines(s, list_lines(gs))->Ok_0.store == s.store,
        read_lines(s, list_lines(gs))->Ok_0.name == s.name,
        read_lines(s, list_lines(gs))->Ok_0.list == by_priority(gs),
    decreases gs.len(),
{
    let f = |v: GroupView| (v.priority, v);
    if gs.len() == 0 {
        assert(gs.map_values(f) =~= Seq::<(u64, GroupView)>::empty());
        assert(by_priority(gs) == Map::<u64, GroupView>::empty());
    } else {
        let g2 = gs.drop_last();
        assert forall|j: int| 0 <= j < g2.len() implies (#[trigger] g2[j]).name == s.name && clean(
            g2[j].base_path,
        ) && links_persistable(g2[j].links) && names_unique(g2[j].links) by {
            assert(g2[j] == gs[j]);
        }
        assert(groups_persistable(g2));
        lemma_read_list(s, g2);
        let t = read_lines(s, list_lines(g2))->Ok_0;
        let g = gs.last();
        assert(gs[gs.len() - 1].name == s.name);
        assert(clean(gs[gs.len() - 1].base_path));
        assert(names_unique(gs[gs.len() - 1].links));
        lemma_read_group(t, g);
        lemma_read_append(s, list_lines(g2), group_lines(g));
        assert(gs.map_values(f).drop_last() =~= g2.map_values(f));
        assert(gs.map_values(f).last() == (g.priority, g));
    }
}

/// The group lists of the text keyed by name, each keyed by priority.
pub open spec fn by_name(gl: Seq<(Seq<char>, Seq<GroupView>)>) -> Map<Seq<char>, Map<u64, GroupView>> {
    pairs_to_map(gl.map_values(|e: (Seq<char>, Seq<GroupView>)| (e.0, by_priority(e.1))))
}

/// Reading the group section gives every list under its name.
proof fn lemma_read_groups(s: ReadState, gl: Seq<(Seq<char>, Seq<GroupView>)>)
    requires
        s.mode == Mode::GroupName,
        s.store.groups == Map::<Seq<char>, Map<u64, GroupView>>::empty(),
        lists_persistable(gl),
    ensures
        read_lines(s, groups_lines(gl)) is Ok,
        read_lines(s, groups_lines(gl))->Ok_0.mode == Mode::GroupName,
        read_lines(s, groups_lines(gl))->Ok_0.store == (StoreView { groups: by_name(gl), ..s.store }),
    decreases gl.len(),
{
    let f = |e: (Seq<char>, Seq<GroupView>)| (e.0, by_priority(e.1));
    if gl.len() == 0 {
        assert(gl.map_values(f) =~= Seq::<(Seq<char>, Map<u64, GroupView>)>::empty());
        assert(by_name(gl) == Map::<Seq<char>, Map<u64, GroupView>>::empty());
        assert(s.store == (StoreView { groups: by_name(gl), ..s.store }));
    } else {
        let g2 = gl.drop_last();
        assert forall|i: int| 0 <= i < g2.len() implies clean((#[trigger] g2[i]).0) && groups_persistable(
            g2[i].1,
        ) && forall|j: int| 0 <= j < g2[i].1.len() ==> (#[trigger] g2[i].1[j]).name == g2[i].0
            && names_unique(g2[i].1[j].links) by {
            assert(g2[i] == gl[i]);
        }
        lemma_read_groups(s, g2);
        let t = read_lines(s, groups_lines(g2))->Ok_0;
        let e = gl.last();
        let n = e.0;
        let gs = e.1;
        assert(clean(gl[gl.len() - 1].0));
        assert(forall|j: int| 0 <= j < gs.len() ==> (#[trigger] gs[j]).name == n);
        assert(forall|j: int| 0 <= j < gs.len() ==> names_unique((#[trigger] gs[j]).links));
        let t1 = ReadState { mode: Mode::Base, name: n, list: Map::empty(), ..t };
        lemma_read_one(t, n);
        lemma_read_list(t1, gs);
        let t2 = read_lines(t1, list_lines(gs))->Ok_0;
        let blank = Seq::<char>::empty();
        lemma_read_two(t2, blank, blank);
        let prev = groups_lines(g2);
        lemma_read_append(s, prev, seq![n]);
        lemma_read_append(s, prev + seq![n], list_lines(gs));
        lemma_read_append(s, prev + seq![n] + list_lines(gs), seq![blank, blank]);
        assert(gl.map_values(f).drop_last() =~= g2.map_values(f));
        assert(gl.map_values(f).last() == (n, by_priority(gs)));
    }
}

/// Saving a well-formed configuration whose strings survive the line format,
/// then reading the text back, gives the same configuration: the same
/// command directory, active selections, standalone links in order, and
/// groups under each name by priority.
pub proof fn lemma_round_trip(c: Config)
    requires
        c.wf(),
        persistable(c),
    ensures
        parse_text(saved_text(c)) == Ok::<StoreView, ParseError>(c@),
{
    let cmd = c.cmd_dir_str@;
    let a = active_pairs(c.active_configs@);
    let l = link_views(c.links@);
    let gl = group_lists(c.config_map@);
    assert forall|i: int| 0 <= i < a.len() implies nonblank((#[trigger] a[i]).0) by {
        assert(a[i].0 == c.active_configs@[i].0@);
    }
    assert forall|i: int| 0 <= i < gl.len() implies clean((#[trigger] gl[i]).0) && groups_persistable(
        gl[i].1,
    ) && forall|j: int| 0 <= j < gl[i].1.len() ==> (#[trigger] gl[i].1[j]).name == gl[i].0
        && names_unique(gl[i].1[j].links) by {
        let ci = c.config_map@[i];
        assert(gl[i].1 =~= ci.1@.map_values(|g: LinkGroup| g@));
        assert(list_wf(ci.0@, ci.1@));
        assert forall|j: int| 0 <= j < gl[i].1.len() implies (#[trigger] gl[i].1[j]).name == gl[i].0
            && names_unique(gl[i].1[j].links) by {
            assert(gl[i].1[j] == ci.1@[j]@);
            assert(ci.1@[j].name@ == ci.0@);
            assert(ci.1@[j].wf());
        }
    }
    // the text is the lines, joined, and splits back into them
    lemma_render_text(cmd, a, l, gl);
    let e = seq![Seq::<char>::empty()];
    let p1 = seq![cmd];
    let p2 = p1 + active_lines(a);
    let p3 = p2 + e;
    let p4 = p3 + links_lines(l);
    let p5 = p4 + e;
    let rl = p5 + groups_lines(gl);
    assert(rl == render_lines(cmd, a, l, gl));
    lemma_empty_clean();
    assert(all_clean(p1));
    lemma_active_lines_clean(a);
    lemma_links_lines_clean(l);
    lemma_groups_lines_clean(gl);
    lemma_all_clean_append(p1, active_lines(a));
    lemma_all_clean_append(p2, e);
    lemma_all_clean_append(p3, links_lines(l));
    lemma_all_clean_append(p4, e);
    lemma_all_clean_append(p5, groups_lines(gl));
    lemma_split_joined(rl);
    // reading it, section by section
    let s0 = initial_state();
    let s1 = ReadState { mode: Mode::ActiveName, store: StoreView { cmd_dir: cmd, ..s0.store }, ..s0 };
    lemma_read_one(s0, cmd);
    lemma_read_active(s1, a);
    let s2 = ReadState { store: StoreView { active: pairs_to_map(a), ..s1.store }, ..s1 };
    let s3 = ReadState { mode: Mode::LinkName, ..s2 };
    lemma_read_one(s2, Seq::<char>::empty());
    lemma_read_links(s3, l);
    let s4 = ReadState { store: StoreView { links: l, ..s3.store }, ..s3 };
    let s5 = ReadState { mode: Mode::GroupName, ..s4 };
    lemma_read_one(s4, Seq::<char>::empty());
    lemma_read_groups(s5, gl);
    lemma_read_append(s0, p1, active_lines(a));
    lemma_read_append(s0, p2, e);
    lemma_read_append(s0, p3, links_lines(l));
    lemma_read_append(s0, p4, e);
    lemma_read_append(s0, p5, groups_lines(gl));
    let t = read_lines(s5, groups_lines(gl))->Ok_0;
    assert(read_lines(s0, rl) == Ok::<ReadState, ParseError>(t));
    // what was read is the configuration
    let f = |e: (Seq<char>, Seq<GroupView>)| (e.0, by_priority(e.1));
    assert forall|i: int| 0 <= i < gl.len() implies #[trigger] gl.map_values(f)[i] == group_pairs(
        c.config_map@,
    )[i] by {
        let ci = c.config_map@[i];
        assert(gl[i].1.map_values(|v: GroupView| (v.priority, v)) =~= priority_pairs(ci.1@));
    }
    assert(gl.map_values(f) =~= group_pairs(c.config_map@));
    assert(t.store == c@);
}

} // verus!
