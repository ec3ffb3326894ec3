use vstd::prelude::*;
use vstd::string::*;
use crate::link::{Link, LinkView};
use crate::group::{LinkGroup, GroupView};
use crate::store::Config;
use crate::text::chars_of;

verus! {

/// A path separator: forward or backward slash.
pub open spec fn is_separator(c: char) -> bool {
    c == '/' || c == '\\'
}

/// An ASCII letter, as a drive letter is.
pub open spec fn is_drive_letter(c: char) -> bool {
    ('a' <= c && c <= 'z') || ('A' <= c && c <= 'Z')
}

/// A path is absolute when it starts with a separator, or with a drive
/// letter, a colon and a separator.
pub open spec fn is_absolute(p: Seq<char>) -> bool {
    ||| (p.len() > 0 && is_separator(p[0]))
    ||| (p.len() >= 3 && is_drive_letter(p[0]) && p[1] == ':' && is_separator(p[2]))
}

/// `p` resolved against the directory `base`: an absolute `p` stands as it
/// is; a relative one follows `base` and a separator (none is added after an
/// empty base or one that already ends in a separator).
pub open spec fn join(base: Seq<char>, p: Seq<char>) -> Seq<char> {
    if is_absolute(p) || base.len() == 0 {
        p
    } else if is_separator(base.last()) {
        base + p
    } else {
        base + seq!['/'] + p
    }
}

/// The file name of a forwarding script for the link `name`.
pub open spec fn script_name(name: Seq<char>) -> Seq<char> {
    name + seq!['.', 'b', 'a', 't']
}

/// A forwarding script: runs `target`, quoted, with all the arguments it got.
pub open spec fn script_text(target: Seq<char>) -> Seq<char> {
    seq!['@', '"'] + target + seq!['"', ' ', '%', '*']
}

/// What an action does, mathematically.
pub ghost enum ActionView {
    Symlink { link_path: Seq<char>, target: Seq<char> },
    WriteScript { link_path: Seq<char>, content: Seq<char> },
    RemoveSymlink { link_path: Seq<char> },
    RemoveFile { link_path: Seq<char> },
}

/// One filesystem change that materialises or removes a link.
#[derive(Debug, PartialEq, Eq)]
pub enum Action {
    /// Put a directory symlink at `link_path` pointing at `target`, in place
    /// of whatever was there.
    Symlink { link_path: String, target: String },
    /// Write `content` to the file at `link_path`, replacing it.
    WriteScript { link_path: String, content: String },
    /// Remove the directory symlink at `link_path`.
    RemoveSymlink { link_path: String },
    /// Remove the file at `link_path`.
    RemoveFile { link_path: String },
}

impl View for Action {
    type V = ActionView;

    open spec fn view(&self) -> ActionView {
        match self {
            Action::Symlink { link_path, target } => ActionView::Symlink {
                link_path: link_path@,
                target: target@,
            },
            Action::WriteScript { link_path, content } => ActionView::WriteScript {
                link_path: link_path@,
                content: content@,
            },
            Action::RemoveSymlink { link_path } => ActionView::RemoveSymlink {
                link_path: link_path@,
            },
            Action::RemoveFile { link_path } => ActionView::RemoveFile { link_path: link_path@ },
        }
    }
}

/// The views of a sequence of actions.
pub open spec fn action_views(a: Seq<Action>) -> Seq<ActionView> {
    a.map_values(|x: Action| x@)
}

/// Where the artifact of link `l` goes in `in_dir`: a symlink named after the
/// link for a directory target, a script `<name>.bat` otherwise.
pub open spec fn link_file(l: LinkView, in_dir: Seq<char>, target_is_dir: bool) -> Seq<char> {
    if target_is_dir {
        join(in_dir, l.name)
    } else {
        join(in_dir, script_name(l.name))
    }
}

/// The action that materialises link `l` in `in_dir`, its target resolved
/// against `base`.
pub open spec fn create_spec(l: LinkView, in_dir: Seq<char>, base: Seq<char>, target_is_dir: bool) -> ActionView {
    if target_is_dir {
        ActionView::Symlink { link_path: link_file(l, in_dir, true), target: join(base, l.path) }
    } else {
        ActionView::WriteScript {
            link_path: link_file(l, in_dir, false),
            content: script_text(join(base, l.path)),
        }
    }
}

/// The action that removes what `create_spec` made.
pub open spec fn remove_spec(l: LinkView, in_dir: Seq<char>, target_is_dir: bool) -> ActionView {
    if target_is_dir {
        ActionView::RemoveSymlink { link_path: link_file(l, in_dir, true) }
    } else {
        ActionView::RemoveFile { link_path: link_file(l, in_dir, false) }
    }
}

/// What a directory entry managed here is.
pub ghost enum Artifact {
    Symlink(Seq<char>),
    Script(Seq<char>),
}

/// The managed entries after `a`, when it succeeds.
pub open spec fn apply(fs: Map<Seq<char>, Artifact>, a: ActionView) -> Map<Seq<char>, Artifact> {
    match a {
        ActionView::Symlink { link_path, target } => fs.insert(link_path, Artifact::Symlink(target)),
        ActionView::WriteScript { link_path, content } => fs.insert(link_path, Artifact::Script(content)),
        ActionView::RemoveSymlink { link_path } => fs.remove(link_path),
        ActionView::RemoveFile { link_path } => fs.remove(link_path),
    }
}

/// The managed entries after the actions `acts`, in order.
pub open spec fn apply_all(fs: Map<Seq<char>, Artifact>, acts: Seq<ActionView>) -> Map<Seq<char>, Artifact>
    decreases acts.len(),
{
    if acts.len() == 0 {
        fs
    } else {
        apply_all(apply(fs, acts[0]), acts.drop_first())
    }
}

/// The action creates something rather than removing it.
pub open spec fn is_creation(a: ActionView) -> bool {
    a is Symlink || a is WriteScript
}

/// Applying creations equals laying what they write over what was there.
proof fn lemma_creations_overlay(fs: Map<Seq<char>, Artifact>, acts: Seq<ActionView>)
    requires
        forall|i: int| 0 <= i < acts.len() ==> is_creation(#[trigger] acts[i]),
    ensures
        apply_all(fs, acts) == fs.union_prefer_right(apply_all(Map::empty(), acts)),
    decreases acts.len(),
{
    if acts.len() > 0 {
        let rest = acts.drop_first();
        assert forall|i: int| 0 <= i < rest.len() implies is_creation(#[trigger] rest[i]) by {
            assert(rest[i] == acts[i + 1]);
        }
        assert(is_creation(acts[0]));
        let one = apply(Map::empty(), acts[0]);
        lemma_creations_overlay(apply(fs, acts[0]), rest);
        lemma_creations_overlay(one, rest);
        assert(apply(fs, acts[0]) =~= fs.union_prefer_right(one));
        assert(fs.union_prefer_right(one).union_prefer_right(apply_all(Map::empty(), rest))
            =~= fs.union_prefer_right(one.union_prefer_right(apply_all(Map::empty(), rest))));
    } else {
        assert(fs.union_prefer_right(Map::empty()) =~= fs);
    }
}

/// Carrying out the same creations twice leaves what carrying them out once leaves.
pub proof fn lemma_creations_idempotent(fs: Map<Seq<char>, Artifact>, acts: Seq<ActionView>)
    requires
        forall|i: int| 0 <= i < acts.len() ==> is_creation(#[trigger] acts[i]),
    ensures
        apply_all(apply_all(fs, acts), acts) == apply_all(fs, acts),
{
    let w = apply_all(Map::empty(), acts);
    lemma_creations_overlay(fs, acts);
    lemma_creations_overlay(apply_all(fs, acts), acts);
    assert(fs.union_prefer_right(w).union_prefer_right(w) =~= fs.union_prefer_right(w));
}

/// Whether `c` is a path separator.
fn separator(c: char) -> (r: bool)
    ensures
        r == is_separator(c),
{
    c == '/' || c == '\\'
}

/// Resolves the path `p` against the directory `base`.
pub fn join_path(base: &str, p: &str) -> (r: String)
    ensures
        r@ == join(base@, p@),
{
    let pc = chars_of(p);
    let bc = chars_of(base);
    let absolute = (pc.len() > 0 && separator(pc[0])) || (pc.len() >= 3 && (('a' <= pc[0]
        && pc[0] <= 'z') || ('A' <= pc[0] && pc[0] <= 'Z')) && pc[1] == ':' && separator(pc[2]));
    if absolute || bc.len() == 0 {
        return String::from_str(p);
    }
    let mut r = String::from_str(base);
    if !separator(bc[bc.len() - 1]) {
        proof {
            reveal_strlit("/");
        }
        r.append("/");
    }
    r.append(p);
    proof {
        assert(bc@.last() == bc@[bc.len() - 1]);
        assert(r@ =~= join(base@, p@));
    }
    r
}

/// The script that forwards to `target`.
pub fn forwarding_script(target: &str) -> (r: String)
    ensures
        r@ == script_text(target@),
{
    proof {
        reveal_strlit("@\"");
        reveal_strlit("\" %*");
    }
    let mut r = String::from_str("@\"");
    r.append(target);
    r.append("\" %*");
    assert(r@ =~= script_text(target@));
    r
}

impl Link {
    /// This link's target resolved against `base_dir`.
    pub fn resolve_target(&self, base_dir: &str) -> (r: String)
        ensures
            r@ == join(base_dir@, self.path@),
    {
        join_path(base_dir, self.path.as_str())
    }

    /// Where this link's artifact goes in `in_dir` and what it points at:
    /// `(link_path, source_path)`.
    pub fn rel_link(&self, in_dir: &str, source_rel_path: &str, target_is_dir: bool) -> (r: (
        String,
        String,
    ))
        ensures
            r.0@ == link_file(self@, in_dir@, target_is_dir),
            r.1@ == join(source_rel_path@, self.path@),
    {
        let source_path = self.resolve_target(source_rel_path);
        if target_is_dir {
            (join_path(in_dir, self.name.as_str()), source_path)
        } else {
            proof {
                reveal_strlit(".bat");
            }
            let mut file_name = self.name.clone();
            file_name.append(".bat");
            assert(file_name@ =~= script_name(self.name@));
            (join_path(in_dir, file_name.as_str()), source_path)
        }
    }

    /// The action that materialises this link in `in_dir`, its target
    /// resolved against `source_rel_path`.
    pub fn create_link(&self, in_dir: &str, source_rel_path: &str, target_is_dir: bool) -> (r: Action)
        ensures
            r@ == create_spec(self@, in_dir@, source_rel_path@, target_is_dir),
    {
        let (link_path, source_path) = self.rel_link(in_dir, source_rel_path, target_is_dir);
        if target_is_dir {
            Action::Symlink { link_path, target: source_path }
        } else {
            Action::WriteScript { link_path, content: forwarding_script(source_path.as_str()) }
        }
    }

    /// The action that removes this link's artifact from `in_dir`.
    pub fn remove_link(&self, in_dir: &str, source_rel_path: &str, target_is_dir: bool) -> (r: Action)
        ensures
            r@ == remove_spec(self@, in_dir@, target_is_dir),
    {
        let (link_path, _) = self.rel_link(in_dir, source_rel_path, target_is_dir);
        if target_is_dir {
            Action::RemoveSymlink { link_path }
        } else {
            Action::RemoveFile { link_path }
        }
    }
}

/// The actions that activate group `g` in `in_dir`, one per link, in order;
/// `dirs[i]` tells whether link `i`'s resolved target is a directory.
pub open spec fn activation_spec(g: GroupView, in_dir: Seq<char>, dirs: Seq<bool>) -> Seq<ActionView> {
    Seq::new(g.links.len(), |i: int| create_spec(g.links[i], in_dir, g.base_path, dirs[i]))
}

/// The actions that deactivate group `g` in `in_dir`, one per link, in order.
pub open spec fn deactivation_spec(g: GroupView, in_dir: Seq<char>, dirs: Seq<bool>) -> Seq<ActionView> {
    Seq::new(g.links.len(), |i: int| remove_spec(g.links[i], in_dir, dirs[i]))
}

/// Activating a group twice in succession leaves the managed entries as
/// activating it once does: each link's symlink or script is there, pointing
/// at the same resolved target.
pub proof fn lemma_activation_idempotent(
    g: GroupView,
    in_dir: Seq<char>,
    dirs: Seq<bool>,
    fs: Map<Seq<char>, Artifact>,
)
    requires
        dirs.len() == g.links.len(),
    ensures
        apply_all(apply_all(fs, activation_spec(g, in_dir, dirs)), activation_spec(g, in_dir, dirs))
            == apply_all(fs, activation_spec(g, in_dir, dirs)),
{
    let acts = activation_spec(g, in_dir, dirs);
    assert forall|i: int| 0 <= i < acts.len() implies is_creation(#[trigger] acts[i]) by {}
    lemma_creations_idempotent(fs, acts);
}

impl LinkGroup {
    /// The actions that materialise every link of this group in `in_dir`,
    /// relative targets resolving against the group's base path.
    pub fn activate(&self, in_dir: &str, target_is_dir: &Vec<bool>) -> (r: Vec<Action>)
        requires
            target_is_dir@.len() == self.links@.len(),
        ensures
            action_views(r@) == activation_spec(self@, in_dir@, target_is_dir@),
    {
        let mut r: Vec<Action> = Vec::new();
        let mut i: usize = 0;
        while i < self.links.len()
            invariant
                i <= self.links@.len(),
                target_is_dir@.len() == self.links@.len(),
                action_views(r@) == activation_spec(self@, in_dir@, target_is_dir@).take(i as int),
            decreases self.links.len() - i,
        {
            let a = self.links[i].create_link(in_dir, self.base_path.as_str(), target_is_dir[i]);
            let ghost before = r@;
            r.push(a);
            proof {
                assert(action_views(r@) =~= action_views(before).push(a@));
                assert(activation_spec(self@, in_dir@, target_is_dir@).take(i + 1) =~= activation_spec(
                    self@,
                    in_dir@,
                    target_is_dir@,
                ).take(i as int).push(a@));
            }
            i = i + 1;
        }
        assert(activation_spec(self@, in_dir@, target_is_dir@).take(i as int) =~= activation_spec(
            self@,
            in_dir@,
            target_is_dir@,
        ));
        r
    }

    /// The actions that remove every link of this group from `in_dir`.
    pub fn deactivate(&self, in_dir: &str, target_is_dir: &Vec<bool>) -> (r: Vec<Action>)
        requires
            target_is_dir@.len() == self.links@.len(),
        ensures
            action_views(r@) == deactivation_spec(self@, in_dir@, target_is_dir@),
    {
        let mut r: Vec<Action> = Vec::new();
        let mut i: usize = 0;
        while i < self.links.len()
            invariant
                i <= self.links@.len(),
                target_is_dir@.len() == self.links@.len(),
                action_views(r@) == deactivation_spec(self@, in_dir@, target_is_dir@).take(i as int),
            decreases self.links.len() - i,
        {
            let a = self.links[i].remove_link(in_dir, self.base_path.as_str(), target_is_dir[i]);
            let ghost before = r@;
            r.push(a);
            proof {
                assert(action_views(r@) =~= action_views(before).push(a@));
                assert(deactivation_spec(self@, in_dir@, target_is_dir@).take(i + 1) =~= deactivation_spec(
                    self@,
                    in_dir@,
                    target_is_dir@,
                ).take(i as int).push(a@));
            }
            i = i + 1;
        }
        assert(deactivation_spec(self@, in_dir@, target_is_dir@).take(i as int) =~= deactivation_spec(
            self@,
            in_dir@,
            target_is_dir@,
        ));
        r
    }
}

impl Config {
    /// The command directory resolved against `exe_dir`, the directory of the
    /// running program.
    pub fn cmd_dir(&self, exe_dir: &str) -> (r: String)
        ensures
            r@ == join(exe_dir@, self.cmd_dir_str@),
    {
        join_path(exe_dir, self.cmd_dir_str.as_str())
    }

    /// The configuration file of the program whose file stem is `exe_stem`:
    /// `.<exe_stem>` beside it in `exe_dir`.
    pub fn cfg_path(exe_dir: &str, exe_stem: &str) -> (r: String)
        ensures
            r@ == join(exe_dir@, seq!['.'] + exe_stem@),
    {
        proof {
            reveal_strlit(".");
        }
        let mut name = String::from_str(".");
        name.append(exe_stem);
        assert(name@ =~= seq!['.'] + exe_stem@);
        join_path(exe_dir, name.as_str())
    }
}

} // verus!
