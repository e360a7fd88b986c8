//! A file system rebuilt from a terminal log, and the sizes of its
//! directories.

use crate::text::{chars_of, is_text, parse_usize, split_whitespace, string_of, texts, unsigned_literal, words_of};
use crate::traversal::{
    in_subtree, lemma_children_before_parent, lemma_postorder_visits_once, lemma_postorder_visits_subtree, postorder,
    postorder_list, step_at, traverse_tree_apply_if, traversed, walk,
};
use crate::tree::{
    add_node_below, child_named, get_value, go_down, go_up, same_shape, with_new_child, Arena, NodeRef, NodeView,
};
use vstd::prelude::*;

verus! {

/// What a node of the file system is, with its size in bytes.
#[derive(Clone, Copy, Debug, PartialEq, Eq, Structural)]
pub enum FsNode {
    File(usize),
    Dir(usize),
}

impl FsNode {
    /// The size a node carries.
    pub open spec fn size(self) -> usize {
        match self {
            FsNode::File(size) => size,
            FsNode::Dir(size) => size,
        }
    }
}

/// A line of the log, understood.
pub enum Entry {
    Ls,
    Cd(String),
    Dir(String),
    File(usize, String),
}

/// Mathematical model of an [`Entry`].
pub enum EntryView {
    Ls,
    Cd(Seq<char>),
    Dir(Seq<char>),
    File(usize, Seq<char>),
}

impl View for Entry {
    type V = EntryView;

    open spec fn view(&self) -> EntryView {
        match self {
            Entry::Ls => EntryView::Ls,
            Entry::Cd(dir) => EntryView::Cd(dir@),
            Entry::Dir(name) => EntryView::Dir(name@),
            Entry::File(size, name) => EntryView::File(*size, name@),
        }
    }
}

/// Why a log cannot be replayed.
#[derive(Clone, Copy, Debug, PartialEq, Eq, Structural)]
pub enum LogError {
    /// The line is empty.
    EmptyLine,
    /// The line holds white space only.
    InvalidLine,
    /// A `$` is followed by neither `ls` nor `cd` with a name.
    UnrecognizedCommand,
    /// A directory or file is listed without a name, or with more than one.
    MissingName,
    /// The line starts with something other than `$`, `dir` or a size.
    UnrecognizedStart,
    /// `cd ..` at a root.
    NoParent,
    /// `cd` to a name that the current directory does not hold.
    NoSuchEntry,
}

/// The size that a word denotes.
pub open spec fn size_of_word(word: Seq<char>) -> Option<usize> {
    match unsigned_literal(word) {
        Some(n) => if n <= usize::MAX {
            Some(n as usize)
        } else {
            None
        },
        None => None,
    }
}

/// The command that the words after a `$` form.
pub open spec fn command_of(parts: Seq<Seq<char>>) -> Option<EntryView> {
    if parts.len() == 1 && parts[0] == "ls"@ {
        Some(EntryView::Ls)
    } else if parts.len() == 2 && parts[0] == "cd"@ {
        Some(EntryView::Cd(parts[1]))
    } else {
        None
    }
}

/// What a line of the log says.
pub open spec fn entry_of(line: Seq<char>) -> Result<EntryView, LogError> {
    let parts = words_of(line);
    if line.len() == 0 {
        Err(LogError::EmptyLine)
    } else if parts.len() == 0 {
        Err(LogError::InvalidLine)
    } else if parts[0] == "$"@ {
        match command_of(parts.skip(1)) {
            Some(command) => Ok(command),
            None => Err(LogError::UnrecognizedCommand),
        }
    } else if parts[0] == "dir"@ {
        if parts.len() == 2 {
            Ok(EntryView::Dir(parts[1]))
        } else {
            Err(LogError::MissingName)
        }
    } else {
        match size_of_word(parts[0]) {
            Some(size) => if parts.len() == 2 {
                Ok(EntryView::File(size, parts[1]))
            } else {
                Err(LogError::MissingName)
            },
            None => Err(LogError::UnrecognizedStart),
        }
    }
}

/// Where the replay of a log stands: the nodes of the arena, the cursor,
/// and the number of identifiers that the arena has handed out.
pub struct Site {
    pub tree: Seq<NodeView<FsNode>>,
    pub cursor: NodeRef,
    pub issued: nat,
}

/// The site at which an arena and a cursor stand.
pub open spec fn site_of(arena: &Arena<FsNode>, cursor: NodeRef) -> Site {
    Site { tree: arena@, cursor, issued: arena.issued() }
}

/// The site after an entry called `name` has been listed below the cursor:
/// a name that is already there is listed in vain.
pub open spec fn listed(site: Site, name: Seq<char>, value: FsNode) -> Site {
    if child_named(site.tree, site.cursor, name) is Some {
        site
    } else {
        Site {
            tree: with_new_child(site.tree, site.cursor, name, value, site.issued as usize),
            cursor: site.cursor,
            issued: site.issued + 1,
        }
    }
}

/// Where `cd` leads from `cursor`.
pub open spec fn cd_target(s: Seq<NodeView<FsNode>>, cursor: NodeRef, dir: Seq<char>) -> Result<NodeRef, LogError> {
    if dir == ".."@ {
        match s[cursor as int].parent {
            Some(p) => Ok(p),
            None => Err(LogError::NoParent),
        }
    } else {
        match child_named(s, cursor, dir) {
            Some(c) => Ok(c),
            None => Err(LogError::NoSuchEntry),
        }
    }
}

/// What an entry does to the arena and to the cursor.
pub open spec fn applied(site: Site, entry: EntryView) -> Result<Site, LogError> {
    match entry {
        EntryView::Ls => Ok(site),
        EntryView::Cd(dir) => match cd_target(site.tree, site.cursor, dir) {
            Ok(target) => Ok(Site { tree: site.tree, cursor: target, issued: site.issued }),
            Err(e) => Err(e),
        },
        EntryView::Dir(name) => Ok(listed(site, name, FsNode::Dir(0))),
        EntryView::File(size, name) => Ok(listed(site, name, FsNode::File(size))),
    }
}

/// What one line of the log does to the arena and to the cursor.
pub open spec fn line_applied(site: Site, line: Seq<char>) -> Result<Site, LogError> {
    match entry_of(line) {
        Ok(entry) => applied(site, entry),
        Err(e) => Err(e),
    }
}

/// What the first `k` lines of the log do, one after the other, from
/// `start` on; the first line that cannot be replayed ends it.
pub open spec fn replayed(start: Site, lines: Seq<String>, k: int) -> Result<Site, LogError>
    decreases k,
{
    if k <= 0 {
        Ok(start)
    } else {
        match replayed(start, lines, k - 1) {
            Ok(site) => line_applied(site, lines[k - 1]@),
            Err(e) => Err(e),
        }
    }
}

/// Whether the node is a directory.
pub fn is_dir(arena: &Arena<FsNode>, node: NodeRef) -> (r: bool)
    requires
        arena.contains(node),
    ensures
        r == (arena@[node as int].value is Dir),
{
    match get_value(arena, node) {
        FsNode::Dir(_) => true,
        _ => false,
    }
}

/// Reads the words after a `$`.
pub fn parse_command(parts: &Vec<Vec<char>>) -> (r: Option<Entry>)
    requires
        parts.len() >= 1,
    ensures
        match r {
            Some(entry) => command_of(texts(parts@).skip(1)) == Some(entry@),
            None => command_of(texts(parts@).skip(1)) is None,
        },
{
    let ghost words = texts(parts@);
    proof {
        assert(words.skip(1).len() == parts.len() - 1);
        if parts.len() >= 2 {
            assert(words.skip(1)[0] == parts@[1]@);
        }
        if parts.len() >= 3 {
            assert(words.skip(1)[1] == parts@[2]@);
        }
    }
    if parts.len() == 2 && is_text(&parts[1], "ls") {
        Some(Entry::Ls)
    } else if parts.len() == 3 && is_text(&parts[1], "cd") {
        Some(Entry::Cd(string_of(&parts[2])))
    } else {
        None
    }
}

/// Reads one line of the log.
pub fn parse_entry(line: &str) -> (r: Result<Entry, LogError>)
    ensures
        match r {
            Ok(entry) => entry_of(line@) == Ok::<EntryView, LogError>(entry@),
            Err(e) => entry_of(line@) == Err::<EntryView, LogError>(e),
        },
{
    let chars = chars_of(line);
    let parts = split_whitespace(&chars);
    proof {
        assert(texts(parts@).len() == parts.len());
        if parts.len() >= 1 {
            assert(texts(parts@)[0] == parts@[0]@);
        }
        if parts.len() >= 2 {
            assert(texts(parts@)[1] == parts@[1]@);
        }
    }
    if chars.len() == 0 {
        Err(LogError::EmptyLine)
    } else if parts.len() == 0 {
        Err(LogError::InvalidLine)
    } else if is_text(&parts[0], "$") {
        match parse_command(&parts) {
            Some(entry) => Ok(entry),
            None => Err(LogError::UnrecognizedCommand),
        }
    } else if is_text(&parts[0], "dir") {
        if parts.len() == 2 {
            Ok(Entry::Dir(string_of(&parts[1])))
        } else {
            Err(LogError::MissingName)
        }
    } else {
        match parse_usize(&parts[0]) {
            Some(size) => if parts.len() == 2 {
                Ok(Entry::File(size, string_of(&parts[1])))
            } else {
                Err(LogError::MissingName)
            },
            None => Err(LogError::UnrecognizedStart),
        }
    }
}

/// Follows a `cd`: `..` leads to the parent, any other name to the child
/// of that name.
pub fn cd(arena: &Arena<FsNode>, node: NodeRef, dir: &str) -> (r: Result<NodeRef, LogError>)
    requires
        arena.wf(),
        arena.contains(node),
    ensures
        r == cd_target(arena@, node, dir@),
        r matches Ok(target) ==> arena.contains(target),
{
    if crate::text::same_text(dir, "..") {
        match go_up(arena, node) {
            Some(parent) => Ok(parent),
            None => Err(LogError::NoParent),
        }
    } else {
        proof {
            crate::tree::lemma_find_from(arena@, arena@[node as int].children, dir@, 0);
        }
        match go_down(arena, node, dir) {
            Ok(child) => {
                proof {
                    let kids = arena@[node as int].children;
                    let j = choose|j: int| 0 <= j < kids.len() && kids[j] == child;
                    assert(crate::tree::child_at(arena@, node as int, j) == child);
                }
                Ok(child)
            },
            Err(_) => Err(LogError::NoSuchEntry),
        }
    }
}

/// Replays one line of the log at `node` and says where the cursor is
/// afterwards. A line that cannot be replayed leaves the arena as it was.
pub fn parse_line(arena: &mut Arena<FsNode>, line: &str, node: NodeRef) -> (r: Result<NodeRef, LogError>)
    requires
        old(arena).wf(),
        old(arena).contains(node),
        old(arena).issued() < usize::MAX,
    ensures
        final(arena).wf(),
        old(arena).issued() <= final(arena).issued() <= old(arena).issued() + 1,
        match r {
            Ok(cursor) => line_applied(site_of(old(arena), node), line@) == Ok::<Site, LogError>(
                site_of(final(arena), cursor),
            ) && final(arena).contains(cursor),
            Err(e) => line_applied(site_of(old(arena), node), line@) == Err::<Site, LogError>(e) && final(arena)@
                == old(arena)@ && final(arena).issued() == old(arena).issued(),
        },
{
    match parse_entry(line) {
        Ok(entry) => match entry {
            Entry::Ls => Ok(node),
            Entry::Cd(dir) => cd(arena, node, dir.as_str()),
            Entry::Dir(name) => {
                // a name that is listed twice is listed in vain
                let _ = add_node_below(arena, node, name.as_str(), FsNode::Dir(0));
                Ok(node)
            },
            Entry::File(size, name) => {
                let _ = add_node_below(arena, node, name.as_str(), FsNode::File(size));
                Ok(node)
            },
        },
        Err(e) => Err(e),
    }
}

/// The sizes that the children `kids[k..]` carry, added up.
pub open spec fn children_sum(s: Seq<NodeView<FsNode>>, kids: Seq<NodeRef>, k: int) -> nat
    decreases kids.len() - k,
{
    if k < 0 || k >= kids.len() {
        0
    } else {
        s[kids[k] as int].value.size() as nat + children_sum(s, kids, k + 1)
    }
}

/// A size as far as a `usize` holds it.
pub open spec fn capped(n: nat) -> usize {
    if n <= usize::MAX {
        n as usize
    } else {
        usize::MAX
    }
}

/// What a directory is once the sizes of its children are added up.
pub open spec fn dir_of_children(s: Seq<NodeView<FsNode>>, node: NodeRef) -> FsNode {
    FsNode::Dir(capped(children_sum(s, s[node as int].children, 0)))
}

/// Whether `after` is `before` with the sizes of the directories below
/// `root` filled in: each of them carries the sum of what its children
/// carry in `after`, and nothing else differs.
pub open spec fn aggregated(before: Seq<NodeView<FsNode>>, root: NodeRef, after: Seq<NodeView<FsNode>>) -> bool {
    &&& same_shape(before, after)
    &&& forall|n: NodeRef|
        n < before.len() ==> (#[trigger] after[n as int]).value == if in_subtree(before, root, n)
            && before[n as int].value is Dir {
            dir_of_children(after, n)
        } else {
            before[n as int].value
        }
}

/// A directory with the sizes of its children added up; the sum stops at
/// the largest `usize`.
pub fn dir_total(arena: &Arena<FsNode>, node: NodeRef) -> (r: FsNode)
    requires
        arena.wf(),
        arena.contains(node),
    ensures
        r == dir_of_children(arena@, node),
{
    let kids = &arena.node(node).children;
    let ghost all = children_sum(arena@, kids@, 0);
    let mut dir_sum: usize = 0;
    let mut k: usize = 0;
    while k < kids.len()
        invariant
            k <= kids.len(),
            arena.wf(),
            arena.contains(node),
            kids@ == arena@[node as int].children,
            all == children_sum(arena@, kids@, 0),
            dir_sum == capped((all - children_sum(arena@, kids@, k as int)) as nat),
            children_sum(arena@, kids@, k as int) <= all,
        decreases kids.len() - k,
    {
        let child = kids[k];
        assert(crate::tree::child_at(arena@, node as int, k as int) == child);
        let size = match get_value(arena, child) {
            FsNode::File(size) => size,
            FsNode::Dir(size) => size,
        };
        dir_sum = dir_sum.saturating_add(size);
        k += 1;
    }
    FsNode::Dir(dir_sum)
}

/// A sum of sizes does not depend on nodes that are not among the children.
proof fn lemma_children_sum_frame(
    s: Seq<NodeView<FsNode>>,
    t: Seq<NodeView<FsNode>>,
    kids: Seq<NodeRef>,
    k: int,
)
    requires
        0 <= k,
        forall|j: int| k <= j < kids.len() ==> s[#[trigger] kids[j] as int].value == t[kids[j] as int].value,
    ensures
        children_sum(s, kids, k) == children_sum(t, kids, k),
    decreases kids.len() - k,
{
    if k < kids.len() {
        assert(s[kids[k] as int].value == t[kids[k] as int].value);
        lemma_children_sum_frame(s, t, kids, k + 1);
    }
}

/// What holds after the first `i` steps of an aggregation pass: of the
/// nodes offered so far, the directories carry the sum of their children;
/// every other node is as it was.
spec fn filled_in(
    before: Seq<NodeView<FsNode>>,
    order: Seq<NodeRef>,
    i: int,
    now: Seq<NodeView<FsNode>>,
) -> bool {
    &&& same_shape(before, now)
    &&& forall|n: NodeRef|
        n < before.len() ==> (#[trigger] now[n as int]).value == if order.take(i).contains(n)
            && before[n as int].value is Dir {
            dir_of_children(now, n)
        } else {
            before[n as int].value
        }
}

proof fn lemma_pass<P, F>(p: P, f: F, before: Arena<FsNode>, root: NodeRef, trace: Seq<Arena<FsNode>>, i: int) where
    P: FnMut(&Arena<FsNode>, NodeRef) -> bool,
    F: FnMut(&Arena<FsNode>, NodeRef) -> FsNode,

    requires
        before.wf(),
        before.contains(root),
        walk(p, f, postorder(before@, root), trace),
        trace[0] == before,
        0 <= i <= postorder(before@, root).len(),
        forall|a: &Arena<FsNode>, n: NodeRef, b: bool|
            a.wf() && a.contains(n) && #[trigger] call_ensures(p, (a, n), b) ==> b == (a@[n as int].value is Dir),
        forall|a: &Arena<FsNode>, n: NodeRef, v: FsNode|
            a.wf() && a.contains(n) && #[trigger] call_ensures(f, (a, n), v) ==> v == dir_of_children(a@, n),
    ensures
        trace[i].wf(),
        trace[i].issued() == before.issued(),
        filled_in(before@, postorder(before@, root), i, trace[i]@),
    decreases i,
{
    let order = postorder(before@, root);
    if i == 0 {
        assert(order.take(0) =~= Seq::<NodeRef>::empty());
    } else {
        lemma_pass(p, f, before, root, trace, i - 1);
        let prev = trace[i - 1];
        let now = trace[i];
        let m = order[i - 1];
        assert(step_at(p, f, order, trace, i - 1));
        assert(order.contains(m));
        lemma_postorder_visits_subtree(before@, root, m);
        lemma_postorder_visits_once(before@, root);
        assert(m < before@.len());
        let done = order.take(i - 1);
        let upto = order.take(i);
        assert(upto =~= done.push(m));
        assert(!done.contains(m)) by {
            if done.contains(m) {
                let j = choose|j: int| 0 <= j < i - 1 && done[j] == m;
                assert(order[j] == order[i - 1]);
            }
        }
        assert forall|n: NodeRef| upto.contains(n) <==> done.contains(n) || n == m by {
            if done.contains(n) {
                let j = choose|j: int| 0 <= j < i - 1 && done[j] == n;
                assert(upto[j] == n);
            }
            if n == m {
                assert(upto[i - 1] == m);
            }
        }
        assert(prev@[m as int].value == before@[m as int].value);
        if call_ensures(p, (&prev, m), false) && now == prev {
            assert(!(before@[m as int].value is Dir));
        } else {
            let v = choose|v: FsNode| #[trigger]
                call_ensures(f, (&prev, m), v) && now@ == prev@.update(
                    m as int,
                    crate::tree::with_value(prev@[m as int], v),
                );
            assert(before@[m as int].value is Dir);
            assert(same_shape(before@, now@));
            assert(now.issued() == before.issued());
            crate::tree::lemma_same_shape_wf(before@, now@);
            crate::tree::lemma_same_shape_ids(before@, now@, before.issued());
            assert forall|n: NodeRef| n < before@.len() implies (#[trigger] now@[n as int]).value == if upto.contains(n) && before@[n as int].value is Dir {
                dir_of_children(now@, n)
            } else {
                before@[n as int].value
            } by {
                let kids = prev@[n as int].children;
                assert(kids == now@[n as int].children);
                assert(kids == before@[n as int].children);
                if (n == m || done.contains(n)) && before@[n as int].value is Dir {
                    // no child of `n` is the node that has just changed
                    assert forall|j: int| 0 <= j < kids.len() implies prev@[#[trigger] kids[j] as int].value
                        == now@[kids[j] as int].value by {
                        assert(crate::tree::child_at(before@, n as int, j) == kids[j]);
                        if kids[j] == m {
                            if n != m {
                                let at = choose|at: int| 0 <= at < i - 1 && done[at] == n;
                                assert(order[at] == n);
                                lemma_children_before_parent(before@, root, i - 1, at);
                            }
                        }
                    }
                    lemma_children_sum_frame(prev@, now@, kids, 0);
                }
            }
        }
    }
}

/// Fills in the sizes of the directories below `root`, bottom up, in one
/// traversal.
pub fn aggregate_sizes(arena: &mut Arena<FsNode>, root: NodeRef)
    requires
        old(arena).wf(),
        old(arena).contains(root),
    ensures
        final(arena).wf(),
        final(arena).issued() == old(arena).issued(),
        aggregated(old(arena)@, root, final(arena)@),
{
    traverse_tree_apply_if(arena, root, is_dir, dir_total);
    proof {
        let order = postorder(old(arena)@, root);
        assert(traversed(is_dir, dir_total, *old(arena), root, *arena));
        let trace = choose|trace: Seq<Arena<FsNode>>|
            {
                &&& #[trigger] walk(is_dir, dir_total, order, trace)
                &&& trace[0] == *old(arena)
                &&& trace.last() == *arena
            };
        lemma_pass(is_dir, dir_total, *old(arena), root, trace, order.len() as int);
        assert(order.take(order.len() as int) =~= order);
        assert forall|n: NodeRef| n < old(arena)@.len() implies (order.contains(n) <==> in_subtree(
            old(arena)@,
            root,
            n,
        )) by {
            lemma_postorder_visits_subtree(old(arena)@, root, n);
        }
    }
}

/// Whether `after` is what the whole log builds from `start`, with the
/// sizes of the directories below the first cursor filled in, and `issued`
/// the number of identifiers handed out by then.
pub open spec fn built_from(start: Site, lines: Seq<String>, after: Seq<NodeView<FsNode>>, issued: nat) -> bool {
    match replayed(start, lines, lines.len() as int) {
        Ok(site) => aggregated(site.tree, start.cursor, after) && site.issued == issued,
        Err(_) => false,
    }
}

/// Whether line `k` is the first that cannot be replayed, for the reason
/// `e`, and `left` and `issued` are what the lines before it made of the
/// arena.
pub open spec fn fails_at(
    start: Site,
    lines: Seq<String>,
    k: int,
    e: LogError,
    left: Seq<NodeView<FsNode>>,
    issued: nat,
) -> bool {
    match replayed(start, lines, k) {
        Ok(site) => site.tree == left && site.issued == issued && line_applied(site, lines[k]@) == Err::<
            Site,
            LogError,
        >(e),
        Err(_) => false,
    }
}

/// Replays a log from `root` on and then fills in the sizes of the
/// directories. If a line cannot be replayed, the arena stays as the lines
/// before it left it.
pub fn build_tree_from_log(arena: &mut Arena<FsNode>, lines: &Vec<String>, root: NodeRef) -> (r: Result<
    (),
    LogError,
>)
    requires
        old(arena).wf(),
        old(arena).contains(root),
        old(arena).issued() + lines.len() < usize::MAX,
    ensures
        final(arena).wf(),
        match r {
            Ok(_) => built_from(site_of(old(arena), root), lines@, final(arena)@, final(arena).issued()),
            Err(e) => exists|k: int|
                0 <= k < lines.len() && #[trigger] fails_at(
                    site_of(old(arena), root),
                    lines@,
                    k,
                    e,
                    final(arena)@,
                    final(arena).issued(),
                ),
        },
{
    let mut cur_node = root;
    let mut k: usize = 0;
    while k < lines.len()
        invariant
            k <= lines.len(),
            arena.wf(),
            arena.contains(cur_node),
            arena.contains(root),
            old(arena).issued() + lines.len() < usize::MAX,
            arena.issued() <= old(arena).issued() + k,
            replayed(site_of(old(arena), root), lines@, k as int) == Ok::<Site, LogError>(site_of(arena, cur_node)),
        decreases lines.len() - k,
    {
        match parse_line(arena, lines[k].as_str(), cur_node) {
            Ok(next) => {
                cur_node = next;
            },
            Err(e) => {
                assert(fails_at(site_of(old(arena), root), lines@, k as int, e, arena@, arena.issued()));
                return Err(e);
            },
        }
        k += 1;
    }
    aggregate_sizes(arena, root);
    Ok(())
}


/// What the node counts for in the sum of the small directories: its size
/// if it is a directory of at most `limit`, and nothing otherwise.
pub open spec fn small_dir_size(value: FsNode, limit: usize) -> nat {
    match value {
        FsNode::Dir(size) => if size <= limit {
            size as nat
        } else {
            0
        },
        FsNode::File(_) => 0,
    }
}

/// The sizes of the directories of at most `limit` among the first `k`
/// nodes of `order`, added up.
pub open spec fn small_dirs_sum(s: Seq<NodeView<FsNode>>, order: Seq<NodeRef>, limit: usize, k: int) -> nat
    decreases k,
{
    if k <= 0 {
        0
    } else {
        small_dirs_sum(s, order, limit, k - 1) + small_dir_size(s[order[k - 1] as int].value, limit)
    }
}

/// Adds up the sizes of the directories below `root`, `root` included, that
/// are not larger than `limit`. `None` if the sum leaves a `usize`.
pub fn sum_of_small_dirs(arena: &Arena<FsNode>, root: NodeRef, limit: usize) -> (r: Option<usize>)
    requires
        arena.wf(),
        arena.contains(root),
    ensures
        ({
            let order = postorder(arena@, root);
            let sum = small_dirs_sum(arena@, order, limit, order.len() as int);
            r == if sum <= usize::MAX {
                Some(sum as usize)
            } else {
                None
            }
        }),
{
    let order = postorder_list(arena, root);
    let mut sum: u128 = 0;
    let mut k: usize = 0;
    while k < order.len()
        invariant
            k <= order.len(),
            arena.wf(),
            order@ == postorder(arena@, root),
            sum == small_dirs_sum(arena@, order@, limit, k as int),
            sum <= k * usize::MAX,
        decreases order.len() - k,
    {
        let node = order[k];
        proof {
            assert(order@.contains(node));
            lemma_postorder_visits_subtree(arena@, root, node);
            assert((k + 1) * usize::MAX == k * usize::MAX + usize::MAX) by (nonlinear_arith);
            assert(k * usize::MAX + usize::MAX <= usize::MAX * usize::MAX + usize::MAX) by (nonlinear_arith)
                requires
                    k <= usize::MAX,
            ;
        }
        if let FsNode::Dir(size) = get_value(arena, node) {
            if size <= limit {
                sum += size as u128;
            }
        }
        k += 1;
    }
    if sum <= usize::MAX as u128 {
        Some(sum as usize)
    } else {
        None
    }
}

/// All the space of the disk.
pub const TOTAL_SPACE: usize = 70000000;

/// The space that has to be free.
pub const FREE_SPACE_WANTED: usize = 30000000;

/// How much has to be freed when `used_space` is in use; `None` if more is
/// in use than the disk holds, or if enough is free as it is.
pub fn space_needed(used_space: usize) -> (r: Option<usize>)
    ensures
        r == if used_space <= TOTAL_SPACE && TOTAL_SPACE - used_space <= FREE_SPACE_WANTED {
            Some((FREE_SPACE_WANTED - (TOTAL_SPACE - used_space)) as usize)
        } else {
            None
        },
{
    if used_space > TOTAL_SPACE {
        return None;
    }
    let free_space: usize = TOTAL_SPACE - used_space;
    if free_space > FREE_SPACE_WANTED {
        return None;
    }
    Some(FREE_SPACE_WANTED - free_space)
}

/// Whether `node` is a directory of the size `size`, which is at least
/// `needed`.
pub open spec fn suffices(s: Seq<NodeView<FsNode>>, node: NodeRef, needed: usize, size: usize) -> bool {
    s[node as int].value == FsNode::Dir(size) && size >= needed
}

/// Whether `smallest` is the size of the smallest directory below `root`,
/// `root` included, that is at least `needed`, or the largest `usize` if
/// there is none.
pub open spec fn is_smallest_sufficient(s: Seq<NodeView<FsNode>>, root: NodeRef, needed: usize, smallest: usize) -> bool {
    &&& forall|n: NodeRef, size: usize|
        in_subtree(s, root, n) && #[trigger] suffices(s, n, needed, size) ==> smallest <= size
    &&& smallest == usize::MAX || exists|n: NodeRef| in_subtree(s, root, n) && #[trigger] suffices(s, n, needed, smallest)
}

/// Finds the size of the smallest directory below `root`, `root` included,
/// that is at least `needed`; the largest `usize` says that there is none.
pub fn smallest_dir_at_least(arena: &Arena<FsNode>, root: NodeRef, needed: usize) -> (smallest: usize)
    requires
        arena.wf(),
        arena.contains(root),
    ensures
        is_smallest_sufficient(arena@, root, needed, smallest),
{
    let order = postorder_list(arena, root);
    let mut size_smallest: usize = usize::MAX;
    let mut k: usize = 0;
    while k < order.len()
        invariant
            k <= order.len(),
            arena.wf(),
            arena.contains(root),
            order@ == postorder(arena@, root),
            forall|j: int, size: usize|
                0 <= j < k && #[trigger] suffices(arena@, order@[j], needed, size) ==> size_smallest <= size,
            size_smallest == usize::MAX || exists|j: int|
                0 <= j < k && #[trigger] suffices(arena@, order@[j], needed, size_smallest),
        decreases order.len() - k,
    {
        let node = order[k];
        proof {
            assert(order@.contains(node));
            lemma_postorder_visits_subtree(arena@, root, node);
        }
        let ghost before = size_smallest;
        if let FsNode::Dir(size) = get_value(arena, node) {
            if size >= needed && size < size_smallest {
                size_smallest = size;
                assert(suffices(arena@, order@[k as int], needed, size_smallest));
            }
        }
        proof {
            if size_smallest == before && before != usize::MAX {
                let j = choose|j: int| 0 <= j < k && #[trigger] suffices(arena@, order@[j], needed, before);
                assert(suffices(arena@, order@[j], needed, size_smallest));
            }
        }
        k += 1;
    }
    proof {
        assert forall|n: NodeRef, size: usize|
            in_subtree(arena@, root, n) && #[trigger] suffices(arena@, n, needed, size) implies size_smallest
            <= size by {
            lemma_postorder_visits_subtree(arena@, root, n);
            let j = choose|j: int| 0 <= j < order@.len() && order@[j] == n;
            assert(suffices(arena@, order@[j], needed, size));
        }
        if size_smallest != usize::MAX {
            let j = choose|j: int| 0 <= j < k && #[trigger] suffices(arena@, order@[j], needed, size_smallest);
            assert(order@.contains(order@[j]));
            lemma_postorder_visits_subtree(arena@, root, order@[j]);
        }
    }
    size_smallest
}

} // verus!
