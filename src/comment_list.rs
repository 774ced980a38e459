use vstd::prelude::*;
use vstd::multiset::Multiset;
use crate::responses::{CommentData, Edited, More};
use crate::traits::{Content, Created};
use crate::errors::APIError;
use crate::text::{comma_joined, join_commas};
use vstd::string::*;

verus! {

/// A node's identity in a tree: its full name and the full name of its parent.
pub type Key = (Seq<char>, Seq<char>);

/// A comment and its associated data.
pub struct Comment {
    pub data: CommentData,
}

impl Comment {
    pub open spec fn key(&self) -> Key {
        (self.data.name@, self.data.parent_id@)
    }

    /// Wraps decoded comment data.
    pub fn new(data: CommentData) -> (r: Comment)
        ensures
            r.data == data,
    {
        Comment { data }
    }

    /// The full name of the parent submission or comment (kind and id, e.g. `t1_4te6jf`).
    pub fn parent(&self) -> (r: &str)
        ensures
            r@ == self.data.parent_id@,
    {
        self.data.parent_id.as_str()
    }

    /// `true` unless the API said the comment was not edited.
    pub fn edited(&self) -> (r: bool)
        ensures
            r == !(self.data.edited matches Edited::Flag(b) && !b),
    {
        self.data.edited.edited()
    }

    /// The edit timestamp, when the API sent one.
    pub fn edited_time(&self) -> (r: Option<i64>)
        ensures
            r == (match self.data.edited {
                Edited::Flag(_) => None,
                Edited::Time(t) => t,
            }),
    {
        self.data.edited.edited_time()
    }
}

impl Content for Comment {
    open spec fn full_name(&self) -> Seq<char> {
        self.data.name@
    }

    fn name(&self) -> (r: &str) {
        self.data.name.as_str()
    }
}

impl Created for Comment {
    open spec fn created_at(&self) -> i64 {
        self.data.created
    }

    open spec fn created_utc_at(&self) -> i64 {
        self.data.created_utc
    }

    fn created(&self) -> (r: i64) {
        self.data.created
    }

    fn created_utc(&self) -> (r: i64) {
        self.data.created_utc
    }
}

/// One decoded unit of a flat batch: a comment, or a stub for children not yet fetched.
/// Replies that the server embedded inside a comment follow it in the batch.
pub enum Thing {
    Comment(Comment),
    More(More),
}

/// What draining a `CommentList` asks for next.
pub enum TreeStep {
    /// The next comment of the sequence.
    Comment(Comment),
    /// The queue is empty: fetch this expansion, decode the answer as a flat batch and hand
    /// it to `merge_more_comments`, then ask again.
    Expand(More),
    /// Nothing is queued and nothing is left to expand.
    End,
}

/// What taking a bounded number of comments asks for next.
pub enum TakeStep {
    /// Fetch this expansion, merge the answer with `merge_more_comments`, and step again.
    Expand(More),
    /// As many comments as wanted were taken, or the tree has no more.
    Done,
}

/// A node that was attached to the tree.
struct Attachment {
    id: String,
    parent: String,
}

/// The keys of a sequence of comments.
pub open spec fn keys_of(cs: Seq<Comment>) -> Seq<Key> {
    cs.map_values(|c: Comment| c.key())
}

/// All the nodes that can be reached within `s` in at most `n` steps along parent links,
/// starting from the nodes under `root` and the `anchors`.
pub open spec fn reach(s: Set<Key>, root: Seq<char>, anchors: Set<Key>, n: nat) -> Set<Key>
    decreases n,
{
    if n == 0 {
        s.filter(|k: Key| k.1 == root || anchors.contains(k))
    } else {
        let prev = reach(s, root, anchors, (n - 1) as nat);
        prev.union(s.filter(|k: Key| exists|m: Key| #[trigger] prev.contains(m) && m.0 == k.1))
    }
}

/// The nodes of `s` whose chain of parents within `s` ends at `root` or at one of the
/// `anchors`.
pub open spec fn adopted(s: Set<Key>, root: Seq<char>, anchors: Set<Key>) -> Set<Key> {
    Set::new(|k: Key| exists|n: nat| #[trigger] reach(s, root, anchors, n).contains(k))
}

pub open spec fn thing_key(t: Thing) -> Option<Key> {
    match t {
        Thing::Comment(c) => Some(c.key()),
        Thing::More(_) => None,
    }
}

/// The keys of the comments of a batch.
pub open spec fn comment_keys(things: Seq<Thing>) -> Set<Key> {
    Set::new(|k: Key| exists|i: int| 0 <= i < things.len() && #[trigger] thing_key(things[i]) == Some(k))
}

/// The comments of a batch, in order.
pub open spec fn batch_comments(things: Seq<Thing>) -> Seq<Comment>
    decreases things.len(),
{
    if things.len() == 0 {
        Seq::empty()
    } else {
        let rest = batch_comments(things.drop_last());
        match things.last() {
            Thing::Comment(c) => rest.push(c),
            Thing::More(_) => rest,
        }
    }
}

proof fn lemma_batch_comments_step(things: Seq<Thing>, n: int)
    requires
        0 <= n < things.len(),
    ensures
        batch_comments(things.take(n + 1)) == match things[n] {
            Thing::Comment(c) => batch_comments(things.take(n)).push(c),
            Thing::More(_) => batch_comments(things.take(n)),
        },
{
    assert(things.take(n + 1).drop_last() =~= things.take(n));
}

/// The keys of the comments of a batch, in order.
pub open spec fn batch_keys(things: Seq<Thing>) -> Seq<Key>
    decreases things.len(),
{
    if things.len() == 0 {
        Seq::empty()
    } else {
        let rest = batch_keys(things.drop_last());
        match things.last() {
            Thing::Comment(c) => rest.push(c.key()),
            Thing::More(_) => rest,
        }
    }
}

/// The expansion stubs of a batch, in order.
pub open spec fn stubs(things: Seq<Thing>) -> Seq<More>
    decreases things.len(),
{
    if things.len() == 0 {
        Seq::empty()
    } else {
        let rest = stubs(things.drop_last());
        match things.last() {
            Thing::More(m) => rest.push(m),
            Thing::Comment(_) => rest,
        }
    }
}

/// The comments of `orph` that wait for `id`, and the others, each in their order.
pub open spec fn split_waiting(orph: Seq<Comment>, id: Seq<char>) -> (Seq<Comment>, Seq<Comment>)
    decreases orph.len(),
{
    if orph.len() == 0 {
        (Seq::empty(), Seq::empty())
    } else {
        let (t, l) = split_waiting(orph.drop_last(), id);
        let x = orph.last();
        if x.data.parent_id@ == id {
            (t.push(x), l)
        } else {
            (t, l.push(x))
        }
    }
}

/// Adoption from position `i` of the attached nodes `att` on: each node in turn takes the
/// comments of `orph` that wait for it, in waiting order, and they join the end of `att`.
/// The result is the adopted comments, in the order they are attached, and those left
/// waiting.
pub open spec fn adopt(att: Seq<Key>, orph: Seq<Comment>, i: nat) -> (Seq<Comment>, Seq<Comment>)
    decreases orph.len(), att.len() - i,
{
    if i < att.len() {
        let (t, l) = split_waiting(orph, att[i as int].0);
        if l.len() < orph.len() {
            let r = adopt(att + keys_of(t), l, i + 1);
            (t + r.0, r.1)
        } else {
            adopt(att, orph, i + 1)
        }
    } else {
        (Seq::empty(), orph)
    }
}

/// What a tree holds, as far as merging and draining are concerned.
pub struct TreeView {
    /// Every attached node, in attach order.
    pub attached: Seq<Key>,
    /// Attached comments not yet handed out, front first.
    pub queue: Seq<Comment>,
    /// Comments waiting for their parent, in arrival order.
    pub orphans: Seq<Comment>,
    /// Stubs still to be expanded, front first.
    pub pending: Seq<More>,
    /// The full name that top-level comments name as their parent.
    pub root: Seq<char>,
}

/// A comment with this key can be attached: its parent is the root or an attached node.
pub open spec fn attaches(v: TreeView, k: Key) -> bool {
    k.1 == v.root || exists|j: int| 0 <= j < v.attached.len() && #[trigger] v.attached[j].0 == k.1
}

/// Merging one comment: it is attached at the end, followed by whatever it adopts
/// (see `adopt`), when its parent is known; otherwise it waits at the end of the registry.
pub open spec fn add_view(v: TreeView, c: Comment) -> TreeView {
    if attaches(v, c.key()) {
        let att = v.attached.push(c.key());
        let r = adopt(att, v.orphans, v.attached.len() as nat);
        TreeView { attached: att + keys_of(r.0), queue: v.queue.push(c) + r.0, orphans: r.1, ..v }
    } else {
        TreeView { orphans: v.orphans.push(c), ..v }
    }
}

/// Merging a batch: its comments one after the other in batch order, its stubs appended
/// to the expansion queue.
pub open spec fn merge_view(v: TreeView, things: Seq<Thing>) -> TreeView
    decreases things.len(),
{
    if things.len() == 0 {
        v
    } else {
        let w = merge_view(v, things.drop_last());
        match things.last() {
            Thing::Comment(c) => add_view(w, c),
            Thing::More(m) => TreeView { pending: w.pending.push(m), ..w },
        }
    }
}

/// The tree built from a batch under `root`: its comments attached and queued, its stubs
/// queued for expansion, each in batch order, and nothing waiting.
pub open spec fn build_view(root: Seq<char>, things: Seq<Thing>) -> TreeView {
    TreeView {
        attached: keys_of(batch_comments(things)),
        queue: batch_comments(things),
        orphans: Seq::empty(),
        pending: stubs(things),
        root,
    }
}

proof fn lemma_split_waiting(orph: Seq<Comment>, id: Seq<char>)
    ensures
        split_waiting(orph, id).0.len() + split_waiting(orph, id).1.len() == orph.len(),
        split_waiting(orph, id).1.len() == orph.len() ==> split_waiting(orph, id).0.len() == 0
            && split_waiting(orph, id).1 == orph,
    decreases orph.len(),
{
    if orph.len() > 0 {
        lemma_split_waiting(orph.drop_last(), id);
        assert(orph.drop_last().push(orph.last()) =~= orph);
    }
}

/// A reply tree rooted at a known parent, drained front to back. Comments are handed out
/// in the order they were attached; a stub is expanded only when nothing is queued.
///
/// Every comment of the batch the tree is built from is attached and queued. Every comment
/// merged later is attached as soon as its parent is the root or an attached comment, and
/// waits in an orphan registry otherwise; it is adopted the moment its parent
/// is attached, together with everything that waits for it in turn. Comments whose parent
/// never arrives are never handed out.
///
/// Parents are found by scanning the attached nodes. Full names are strings, and with a
/// scan every lookup has a proved result; a std map keyed by strings would leave what a
/// lookup returns unstated.
pub struct CommentList {
    link_id: String,
    parent: String,
    attached: Vec<Attachment>,
    drained: usize,
    built: usize,
    comments: Vec<Comment>,
    more: Vec<More>,
    orphans: Vec<Comment>,
}

impl CommentList {
    /// The full name that top-level comments name as their parent.
    pub closed spec fn root(&self) -> Seq<char> {
        self.parent@
    }

    pub closed spec fn link(&self) -> Seq<char> {
        self.link_id@
    }

    /// Every attached node, in attach order.
    pub closed spec fn attached_keys(&self) -> Seq<Key> {
        self.attached@.map_values(|a: Attachment| (a.id@, a.parent@))
    }

    /// How many comments have been handed out.
    pub closed spec fn drained(&self) -> nat {
        self.drained as nat
    }

    /// How many of the attached nodes came with the batch the tree was built from; they
    /// are the first ones attached.
    pub closed spec fn built(&self) -> nat {
        self.built as nat
    }

    /// The nodes of the batch the tree was built from.
    pub open spec fn built_set(&self) -> Set<Key> {
        self.attached_keys().take(self.built() as int).to_set()
    }

    /// Attached comments not yet handed out, front first.
    pub closed spec fn queue(&self) -> Seq<Comment> {
        self.comments@
    }

    /// Stubs still to be expanded, front first.
    pub closed spec fn pending(&self) -> Seq<More> {
        self.more@
    }

    /// The comments waiting in the registry for a parent, in arrival order.
    pub closed spec fn orphans(&self) -> Seq<Comment> {
        self.orphans@
    }

    pub open spec fn orphan_keys(&self) -> Seq<Key> {
        keys_of(self.orphans())
    }

    pub open spec fn view(&self) -> TreeView {
        TreeView {
            attached: self.attached_keys(),
            queue: self.queue(),
            orphans: self.orphans(),
            pending: self.pending(),
            root: self.root(),
        }
    }

    /// Every comment the tree holds, attached or waiting, counted with multiplicity.
    pub open spec fn held(&self) -> Multiset<Key> {
        self.attached_keys().to_multiset().add(self.orphan_keys().to_multiset())
    }

    /// The nodes attached to the tree.
    pub open spec fn attached_set(&self) -> Set<Key> {
        self.attached_keys().to_set()
    }

    /// Every comment this tree has received, attached or waiting.
    pub open spec fn arrived(&self) -> Set<Key> {
        self.attached_keys().to_set().union(self.orphan_keys().to_set())
    }

    /// The comments handed out so far, in order.
    pub open spec fn yielded(&self) -> Seq<Key> {
        self.attached_keys().take(self.drained() as int)
    }

    /// The queue holds exactly the attached comments not yet handed out; every attached
    /// node hangs from the root or from an earlier node; every waiting comment names a
    /// parent that is neither the root nor attached.
    pub open spec fn wf(&self) -> bool {
        &&& self.drained() + self.queue().len() == self.attached_keys().len()
        &&& self.built() <= self.attached_keys().len()
        &&& keys_of(self.queue()) == self.attached_keys().skip(self.drained() as int)
        &&& forall|i: int|
            0 <= i < self.attached_keys().len() ==> #[trigger] self.grounded_at(i)
        &&& forall|k: int|
            0 <= k < self.orphans().len() ==> #[trigger] self.blocked(self.orphans()[k].key())
    }

    /// The node at `i` came with the building batch, or hangs from the root or from an
    /// earlier node.
    pub open spec fn grounded_at(&self, i: int) -> bool {
        let ks = self.attached_keys();
        i < self.built() || ks[i].1 == self.root() || exists|j: int| 0 <= j < i && #[trigger] ks[j].0 == ks[i].1
    }

    /// A node with this key cannot be attached now.
    pub open spec fn blocked(&self, k: Key) -> bool {
        k.1 != self.root() && forall|j: int|
            0 <= j < self.attached_keys().len() ==> #[trigger] self.attached_keys()[j].0 != k.1
    }
}

impl CommentList {
    /// An empty tree, when there are no comments to show.
    pub fn empty() -> (r: CommentList)
        ensures
            r.wf(),
            r.root() == Seq::<char>::empty(),
            r.link() == Seq::<char>::empty(),
            r.attached_keys() == Seq::<Key>::empty(),
            r.orphan_keys() == Seq::<Key>::empty(),
            r.queue() == Seq::<Comment>::empty(),
            r.pending() == Seq::<More>::empty(),
            r.drained() == 0,
    {
        let r = CommentList {
            link_id: String::new(),
            parent: String::new(),
            attached: Vec::new(),
            drained: 0,
            built: 0,
            comments: Vec::new(),
            more: Vec::new(),
            orphans: Vec::new(),
        };
        assert(r.attached_keys() =~= Seq::<Key>::empty());
        assert(r.orphan_keys() =~= Seq::<Key>::empty());
        assert(keys_of(r.queue()) =~= r.attached_keys().skip(0));
        r
    }

    /// `true` if a node with this full name is attached.
    fn is_materialized(&self, id: &String) -> (r: bool)
        ensures
            r == exists|j: int| 0 <= j < self.attached@.len() && #[trigger] self.attached_keys()[j].0 == id@,
    {
        let mut i: usize = 0;
        while i < self.attached.len()
            invariant
                i <= self.attached@.len(),
                forall|j: int| 0 <= j < i ==> #[trigger] self.attached_keys()[j].0 != id@,
            decreases self.attached@.len() - i,
        {
            if self.attached[i].id == *id {
                assert(self.attached_keys()[i as int].0 == id@);
                return true;
            }
            i = i + 1;
        }
        false
    }

    /// Appends `c` to the attached nodes and to the queue.
    fn attach(&mut self, c: Comment)
        requires
            old(self).drained + old(self).comments@.len() == old(self).attached@.len(),
            old(self).comments@.map_values(|c: Comment| c.key()) =~= old(self).attached_keys().skip(
                old(self).drained as int,
            ),
        ensures
            final(self).drained + final(self).comments@.len() == final(self).attached@.len(),
            final(self).comments@.map_values(|c: Comment| c.key()) =~= final(self).attached_keys().skip(
                final(self).drained as int,
            ),
            final(self).attached_keys() == old(self).attached_keys().push(c.key()),
            final(self).comments@ == old(self).comments@.push(c),
            final(self).drained == old(self).drained,
            final(self).built == old(self).built,
            final(self).orphans == old(self).orphans,
            final(self).more == old(self).more,
            final(self).parent == old(self).parent,
            final(self).link_id == old(self).link_id,
    {
        let a = Attachment { id: c.data.name.clone(), parent: c.data.parent_id.clone() };
        self.attached.push(a);
        self.comments.push(c);
        assert(self.attached_keys() =~= old(self).attached_keys().push(c.key()));
        assert(self.attached_keys().skip(self.drained as int) =~= old(self).attached_keys().skip(
            self.drained as int,
        ).push(c.key()));
    }
}

proof fn lemma_remove_to_set<A>(s: Seq<A>, k: int)
    requires
        0 <= k < s.len(),
    ensures
        s.remove(k).to_set().insert(s[k]) =~= s.to_set(),
{
    let r = s.remove(k);
    assert forall|x: A| #[trigger] r.to_set().insert(s[k]).contains(x) <==> s.to_set().contains(x) by {
        if s.to_set().contains(x) && x != s[k] {
            let j = choose|j: int| 0 <= j < s.len() && s[j] == x;
            if j < k {
                assert(r[j] == x);
            } else {
                assert(r[j - 1] == x);
            }
        }
        if r.to_set().contains(x) {
            let j = choose|j: int| 0 <= j < r.len() && r[j] == x;
            if j < k {
                assert(s[j] == x);
            } else {
                assert(s[j + 1] == x);
            }
        }
    }
}

proof fn lemma_take_push<A>(s: Seq<A>, x: A, n: int)
    requires
        0 <= n <= s.len(),
    ensures
        s.push(x).take(n) == s.take(n),
{
    assert(s.push(x).take(n) =~= s.take(n));
}

proof fn lemma_push_to_set<A>(s: Seq<A>, x: A)
    ensures
        s.push(x).to_set() =~= s.to_set().insert(x),
{
    assert forall|y: A| #[trigger] s.push(x).to_set().contains(y) <==> s.to_set().insert(x).contains(y) by {
        if s.to_set().contains(y) {
            let j = choose|j: int| 0 <= j < s.len() && s[j] == y;
            assert(s.push(x)[j] == y);
        }
        if y == x {
            assert(s.push(x)[s.len() as int] == y);
        }
        if s.push(x).to_set().contains(y) && y != x {
            let j = choose|j: int| 0 <= j < s.len() + 1 && s.push(x)[j] == y;
            assert(s[j] == y);
        }
    }
}

impl CommentList {
    spec fn synced(&self) -> bool {
        &&& self.built <= self.attached@.len()
        &&& self.drained + self.comments@.len() == self.attached@.len()
        &&& self.comments@.map_values(|c: Comment| c.key()) =~= self.attached_keys().skip(
            self.drained as int,
        )
    }

    /// No waiting comment names the root, or a node attached before `n`, as its parent.
    spec fn orphans_blocked_before(&self, n: int) -> bool {
        forall|k: int|
            0 <= k < self.orphans@.len() ==> {
                let p = #[trigger] self.orphans@[k].key().1;
                p != self.root() && forall|j: int|
                    0 <= j < n ==> #[trigger] self.attached_keys()[j].0 != p
            }
    }

    spec fn all_grounded(&self) -> bool {
        forall|i: int| 0 <= i < self.attached@.len() ==> #[trigger] self.grounded_at(i)
    }

    proof fn lemma_push_keeps_grounded(&self, old_self: &CommentList)
        requires
            old_self.all_grounded(),
            self.attached_keys() == old_self.attached_keys().push(self.attached_keys().last()),
            self.parent == old_self.parent,
            self.built == old_self.built,
            self.grounded_at(self.attached@.len() - 1),
        ensures
            self.all_grounded(),
    {
        let n = old_self.attached@.len() as int;
        assert(self.attached@.len() == n + 1) by {
            assert(self.attached_keys().len() == self.attached@.len());
            assert(old_self.attached_keys().len() == old_self.attached@.len());
        }
        assert forall|i: int| 0 <= i < self.attached@.len() implies #[trigger] self.grounded_at(i) by {
            if i < n {
                assert(old_self.grounded_at(i));
                let ks = self.attached_keys();
                let oks = old_self.attached_keys();
                assert(ks[i] == oks[i]);
                if i >= old_self.built() && oks[i].1 != old_self.root() {
                    let j = choose|j: int| 0 <= j < i && #[trigger] oks[j].0 == oks[i].1;
                    assert(ks[j] == oks[j]);
                }
            }
        }
    }

    /// Attaches every waiting comment whose parent is attached at or after `start`, and
    /// everything that waits for those in turn.
    fn adopt_from(&mut self, start: usize)
        requires
            old(self).synced(),
            old(self).all_grounded(),
            start <= old(self).attached@.len(),
            old(self).orphans_blocked_before(start as int),
        ensures
            final(self).wf(),
            final(self).arrived() == old(self).arrived(),
            old(self).attached@.len() <= final(self).attached@.len(),
            final(self).attached_keys().take(old(self).attached@.len() as int) == old(
                self,
            ).attached_keys(),
            final(self).comments@.take(old(self).comments@.len() as int) == old(self).comments@,
            final(self).drained == old(self).drained,
            final(self).built == old(self).built,
            final(self).more == old(self).more,
            final(self).parent == old(self).parent,
            final(self).link_id == old(self).link_id,
            final(self).held() == old(self).held(),
            ({
                let r = adopt(old(self).attached_keys(), old(self).orphans(), start as nat);
                &&& final(self).attached_keys() == old(self).attached_keys() + keys_of(r.0)
                &&& final(self).queue() == old(self).queue() + r.0
                &&& final(self).orphans() == r.1
            }),
    {
        let ghost a0 = old(self).attached_keys();
        let ghost o0 = old(self).orphans@;
        let ghost q0 = old(self).comments@;
        let ghost mut done: Seq<Comment> = Seq::empty();
        assert(a0 + keys_of(done) =~= a0);
        assert(q0 + done =~= q0);
        assert(adopt(a0, o0, start as nat).0 =~= done + adopt(a0, o0, start as nat).0);
        let ghost n0 = old(self).attached@.len() as int;
        let ghost c0 = old(self).comments@.len() as int;
        let mut i: usize = start;
        while i < self.attached.len()
            invariant
                self.synced(),
                self.all_grounded(),
                start <= i <= self.attached@.len(),
                self.orphans_blocked_before(i as int),
                self.arrived() == old(self).arrived(),
                n0 == old(self).attached@.len(),
                c0 == old(self).comments@.len(),
                n0 <= self.attached@.len(),
                self.attached_keys().take(n0) == old(self).attached_keys(),
                c0 <= self.comments@.len(),
                self.comments@.take(c0) == old(self).comments@,
                self.drained == old(self).drained,
                self.built == old(self).built,
                self.more == old(self).more,
                self.parent == old(self).parent,
                self.link_id == old(self).link_id,
                a0 == old(self).attached_keys(),
                o0 == old(self).orphans@,
                q0 == old(self).comments@,
                self.attached_keys() == a0 + keys_of(done),
                self.comments@ == q0 + done,
                self.held() == old(self).held(),
                adopt(a0, o0, start as nat) == (done + adopt(self.attached_keys(), self.orphans@, i as nat).0,
                    adopt(self.attached_keys(), self.orphans@, i as nat).1),
            decreases 2 * self.orphans@.len() + self.attached@.len() - i,
        {
            let id = self.attached[i].id.clone();
            assert(id@ == self.attached_keys()[i as int].0);
            let ghost budget = 2 * self.orphans@.len() + self.attached@.len();
            let ghost o = self.orphans@;
            let ghost att = self.attached_keys();
            let ghost qi = self.comments@;
            let ghost mut p: int = 0;
            assert(o.take(0) =~= Seq::<Comment>::empty());
            assert(self.orphans@ =~= split_waiting(o.take(0), id@).1 + o.skip(0));
            assert(att =~= att + keys_of(split_waiting(o.take(0), id@).0));
            assert(qi =~= qi + split_waiting(o.take(0), id@).0);
            let mut k: usize = 0;
            while k < self.orphans.len()
                invariant
                    self.synced(),
                    self.all_grounded(),
                    start <= i < self.attached@.len(),
                    id@ == self.attached_keys()[i as int].0,
                    self.orphans_blocked_before(i as int),
                    k <= self.orphans@.len(),
                    forall|kk: int| 0 <= kk < k ==> #[trigger] self.orphans@[kk].key().1 != id@,
                    2 * self.orphans@.len() + self.attached@.len() <= budget,
                    self.arrived() == old(self).arrived(),
                    n0 == old(self).attached@.len(),
                c0 == old(self).comments@.len(),
                n0 <= self.attached@.len(),
                    self.attached_keys().take(n0) == old(self).attached_keys(),
                    c0 <= self.comments@.len(),
                    self.comments@.take(c0) == old(self).comments@,
                    self.drained == old(self).drained,
                    self.built == old(self).built,
                    self.more == old(self).more,
                    self.parent == old(self).parent,
                    self.link_id == old(self).link_id,
                    0 <= p <= o.len(),
                    i < att.len(),
                    att[i as int].0 == id@,
                    k == split_waiting(o.take(p), id@).1.len(),
                    self.orphans@ == split_waiting(o.take(p), id@).1 + o.skip(p),
                    self.attached_keys() == att + keys_of(split_waiting(o.take(p), id@).0),
                    self.comments@ == qi + split_waiting(o.take(p), id@).0,
                    att == a0 + keys_of(done),
                    qi == q0 + done,
                    self.held() == old(self).held(),
                    a0 == old(self).attached_keys(),
                    o0 == old(self).orphans@,
                    q0 == old(self).comments@,
                    adopt(a0, o0, start as nat) == (done + adopt(att, o, i as nat).0, adopt(att, o, i as nat).1),
                decreases self.orphans@.len() - k,
            {
                let ghost sp = split_waiting(o.take(p), id@);
                assert(o.take(p + 1).drop_last() =~= o.take(p));
                proof {
                    lemma_split_waiting(o.take(p), id@);
                }
                assert(self.orphans@[k as int] == o.skip(p)[0]);
                assert(self.orphans@[k as int] == o[p]);
                assert(o.take(p + 1).last() == o[p]);
                if self.orphans[k].data.parent_id == id {
                    let ghost before = *self;
                    let c = self.orphans.remove(k);
                    let ghost ck = c.key();
                    let ghost cc = c;
                    assert(self.orphan_keys() =~= before.orphan_keys().remove(k as int));
                    assert(before.orphan_keys()[k as int] == ck);
                    proof {
                        lemma_remove_to_set(before.orphan_keys(), k as int);
                        lemma_push_to_set(before.attached_keys(), ck);
                    }
                    self.attach(c);
                    assert(self.attached_keys().len() == self.attached@.len());
                    assert(before.attached_keys().len() == before.attached@.len());
                    assert(self.attached_keys()[i as int] == before.attached_keys()[i as int]);
                    assert(self.grounded_at(self.attached@.len() - 1)) by {
                        let ks = self.attached_keys();
                        assert(ks[i as int].0 == ks[self.attached@.len() - 1].1);
                    }
                    proof {
                        self.lemma_push_keeps_grounded(&before);
                    }
                    assert(self.arrived() =~= before.arrived());
                    assert(self.attached_keys() == before.attached_keys().push(ck));
                    assert(self.comments@ == before.comments@.push(cc));
                    assert forall|j: int| 0 <= j < n0 implies self.attached_keys()[j]
                        == before.attached_keys()[j] by {}
                    assert forall|j: int| 0 <= j < c0 implies self.comments@[j]
                        == before.comments@[j] by {}
                    proof {
                        lemma_take_push(before.attached_keys(), ck, n0);
                        lemma_take_push(before.comments@, cc, c0);
                    }
                    assert forall|kk: int| 0 <= kk < k implies #[trigger] self.orphans@[kk].key().1 != id@ by {
                        assert(self.orphans@[kk] == before.orphans@[kk]);
                    }
                    assert forall|kk: int| 0 <= kk < self.orphans@.len() implies {
                        let p = #[trigger] self.orphans@[kk].key().1;
                        p != self.root() && forall|j: int|
                            0 <= j < i ==> #[trigger] self.attached_keys()[j].0 != p
                    } by {
                        let src = if kk < k { kk } else { kk + 1 };
                        assert(self.orphans@[kk] == before.orphans@[src]);
                        assert forall|j: int| 0 <= j < i implies #[trigger] self.attached_keys()[j]
                            == before.attached_keys()[j] by {}
                    }
                    proof {
                        broadcast use vstd::seq_lib::group_to_multiset_ensures;
                        assert(self.orphan_keys() == before.orphan_keys().remove(k as int));
                        assert(self.held() =~= before.held());
                        let sp2 = split_waiting(o.take(p + 1), id@);
                        assert(sp2.0 == sp.0.push(o[p]) && sp2.1 == sp.1);
                        assert(self.orphans@ =~= sp2.1 + o.skip(p + 1));
                        assert(keys_of(sp2.0) =~= keys_of(sp.0).push(ck));
                        assert(self.attached_keys() =~= att + keys_of(sp2.0));
                        assert(self.comments@ =~= qi + sp2.0);
                        p = p + 1;
                    }
                } else {
                    proof {
                        let sp2 = split_waiting(o.take(p + 1), id@);
                        assert(sp2.0 == sp.0 && sp2.1 == sp.1.push(o[p]));
                        assert(self.orphans@ =~= sp2.1 + o.skip(p + 1));
                        p = p + 1;
                    }
                    k = k + 1;
                }
            }
            proof {
                lemma_split_waiting(o.take(p), id@);
                assert(p == o.len());
                assert(o.take(p) =~= o);
                let t = split_waiting(o, id@).0;
                let l = split_waiting(o, id@).1;
                lemma_split_waiting(o, id@);
                assert(self.orphans@ =~= l);
                let r = adopt(att + keys_of(t), l, i as nat + 1);
                if l.len() == o.len() {
                    assert(t =~= Seq::<Comment>::empty());
                    assert(att + keys_of(t) =~= att);
                    assert(t + r.0 =~= r.0);
                }
                assert(adopt(att, o, i as nat) == (t + r.0, r.1));
                assert(keys_of(done + t) =~= keys_of(done) + keys_of(t));
                assert(self.attached_keys() =~= a0 + keys_of(done + t));
                assert(self.comments@ =~= q0 + (done + t));
                assert(done + (t + r.0) =~= (done + t) + r.0);
                done = done + t;
            }
            assert forall|kk: int| 0 <= kk < self.orphans@.len() implies {
                let p = #[trigger] self.orphans@[kk].key().1;
                p != self.root() && forall|j: int|
                    0 <= j < i + 1 ==> #[trigger] self.attached_keys()[j].0 != p
            } by {
                assert(self.orphans@[kk].key().1 != id@);
            }
            i = i + 1;
        }
        assert(adopt(self.attached_keys(), self.orphans@, i as nat) == (Seq::<Comment>::empty(), self.orphans@));
        assert(done + Seq::<Comment>::empty() =~= done);
    }
}

proof fn lemma_stubs_step(things: Seq<Thing>, n: int)
    requires
        0 <= n < things.len(),
    ensures
        stubs(things.take(n + 1)) == match things[n] {
            Thing::More(m) => stubs(things.take(n)).push(m),
            Thing::Comment(_) => stubs(things.take(n)),
        },
{
    assert(things.take(n + 1).drop_last() =~= things.take(n));
}

proof fn lemma_comment_keys_step(things: Seq<Thing>, n: int)
    requires
        0 <= n < things.len(),
    ensures
        comment_keys(things.take(n + 1)) == match things[n] {
            Thing::Comment(c) => comment_keys(things.take(n)).insert(c.key()),
            Thing::More(_) => comment_keys(things.take(n)),
        },
{
    let a = things.take(n + 1);
    let b = things.take(n);
    assert forall|k: Key| #[trigger] comment_keys(a).contains(k) == (match things[n] {
        Thing::Comment(c) => comment_keys(b).insert(c.key()),
        Thing::More(_) => comment_keys(b),
    }).contains(k) by {
        if comment_keys(a).contains(k) {
            let i = choose|i: int| 0 <= i < a.len() && #[trigger] thing_key(a[i]) == Some(k);
            if i < n {
                assert(thing_key(b[i]) == Some(k));
            }
        }
        if comment_keys(b).contains(k) {
            let i = choose|i: int| 0 <= i < b.len() && #[trigger] thing_key(b[i]) == Some(k);
            assert(thing_key(a[i]) == Some(k));
        }
        if let Thing::Comment(c) = things[n] {
            if k == c.key() {
                assert(thing_key(a[n]) == Some(k));
            }
        }
    }
    assert(comment_keys(a) =~= match things[n] {
        Thing::Comment(c) => comment_keys(b).insert(c.key()),
        Thing::More(_) => comment_keys(b),
    });
}

impl CommentList {
    /// Merges one comment: it is attached when its parent is the root or an attached
    /// comment, and then adopts whatever waits for it; otherwise it waits in the registry.
    pub fn add_reply(&mut self, item: Comment)
        requires
            old(self).wf(),
        ensures
            final(self).wf(),
            final(self).arrived() == old(self).arrived().insert(item.key()),
            final(self).root() == old(self).root(),
            final(self).link() == old(self).link(),
            final(self).pending() == old(self).pending(),
            final(self).drained() == old(self).drained(),
            final(self).built() == old(self).built(),
            old(self).attached_keys().len() <= final(self).attached_keys().len(),
            final(self).attached_keys().take(old(self).attached_keys().len() as int) == old(
                self,
            ).attached_keys(),
            final(self).queue().take(old(self).queue().len() as int) == old(self).queue(),
            (item.key().1 == old(self).root() || exists|j: int|
                0 <= j < old(self).attached_keys().len() && #[trigger] old(self).attached_keys()[j].0
                    == item.key().1) ==> final(self).attached_set().contains(item.key()),
            final(self).attached_set() == adopted(final(self).arrived(), final(self).root(), final(self).built_set()),
            final(self).view() == add_view(old(self).view(), item),
            final(self).held() == old(self).held().insert(item.key()),
    {
        let ghost before = *self;
        let ghost it = item;
        let attachable = item.data.parent_id == self.parent || self.is_materialized(
            &item.data.parent_id,
        );
        if attachable {
            let start = self.attached.len();
            let ghost ik = item.key();
            self.attach(item);
            assert(self.grounded_at(self.attached@.len() - 1)) by {
                let ks = self.attached_keys();
                if ik.1 != self.root() {
                    let j = choose|j: int|
                        0 <= j < before.attached@.len() && #[trigger] before.attached_keys()[j].0
                            == ik.1;
                    assert(ks[j] == before.attached_keys()[j]);
                }
            }
            proof {
                assert(before.all_grounded());
                self.lemma_push_keeps_grounded(&before);
                lemma_push_to_set(before.attached_keys(), ik);
                assert(self.attached_keys().len() == self.attached@.len());
                assert(before.attached_keys().len() == before.attached@.len());
                assert forall|k: int| 0 <= k < self.orphans@.len() implies {
                    let p = #[trigger] self.orphans@[k].key().1;
                    p != self.root() && forall|j: int|
                        0 <= j < start ==> #[trigger] self.attached_keys()[j].0 != p
                } by {
                    assert(before.blocked(before.orphans()[k].key()));
                    assert forall|j: int| 0 <= j < start implies #[trigger] self.attached_keys()[j]
                        == before.attached_keys()[j] by {}
                }
                assert(self.arrived() =~= before.arrived().insert(ik));
            }
            let ghost mid = *self;
            self.adopt_from(start);
            proof {
                if ik.1 != before.root() {
                    let j = choose|j: int|
                        0 <= j < before.attached@.len() && #[trigger] before.attached_keys()[j].0
                            == ik.1;
                    assert(before.view().attached[j].0 == ik.1);
                }
                assert(attaches(before.view(), ik));
                assert(mid.attached_keys() == before.attached_keys().push(ik));
                assert(mid.queue() == before.queue().push(it));
                assert(self.view() =~= add_view(before.view(), it));
                broadcast use vstd::seq_lib::group_to_multiset_ensures;
                assert(self.held() =~= before.held().insert(ik));
                lemma_take_push(before.attached_keys(), ik, before.attached_keys().len() as int);
                lemma_take_push(before.comments@, mid.comments@.last(), before.comments@.len() as int);
                assert(mid.attached_keys().take(before.attached_keys().len() as int) =~= before.attached_keys());
                assert(mid.comments@.take(before.comments@.len() as int) =~= before.comments@);
                assert(self.attached_keys().take(before.attached_keys().len() as int) =~= before.attached_keys()) by {
                    assert forall|j: int| 0 <= j < before.attached_keys().len() implies self.attached_keys()[j]
                        == before.attached_keys()[j] by {
                        assert(self.attached_keys().take(mid.attached@.len() as int)[j] == mid.attached_keys()[j]);
                        assert(mid.attached_keys().take(before.attached_keys().len() as int)[j] == before.attached_keys()[j]);
                    }
                }
                assert(self.comments@.take(before.comments@.len() as int) =~= before.comments@) by {
                    assert forall|j: int| 0 <= j < before.comments@.len() implies self.comments@[j]
                        == before.comments@[j] by {
                        assert(self.comments@.take(mid.comments@.len() as int)[j] == mid.comments@[j]);
                        assert(mid.comments@.take(before.comments@.len() as int)[j] == before.comments@[j]);
                    }
                }
                assert(self.attached_keys().take(mid.attached@.len() as int)[start as int] == mid.attached_keys()[start as int]);
                assert(self.attached_keys()[start as int] == ik);
                assert(self.attached_set().contains(ik));
            }
        } else {
            let ghost ik = item.key();
            let ghost io = item;
            self.orphans.push(item);
            proof {
                assert(!attaches(before.view(), ik));
                assert(self.view() =~= add_view(before.view(), it));
                broadcast use vstd::seq_lib::group_to_multiset_ensures;
                assert(self.orphan_keys() =~= before.orphan_keys().push(ik));
                assert(self.held() =~= before.held().insert(ik));
                lemma_push_to_set(before.orphan_keys(), ik);
                assert(self.arrived() =~= before.arrived().insert(ik));
                assert forall|k: int| 0 <= k < self.orphans@.len() implies #[trigger] self.blocked(
                    self.orphans()[k].key(),
                ) by {
                    if k < before.orphans@.len() {
                        assert(self.orphans@[k] == before.orphans@[k]);
                        assert(before.blocked(before.orphans()[k].key()));
                    } else {
                        assert(self.orphans@[k] == io);
                    }
                }
                assert(self.attached_keys().take(before.attached_keys().len() as int) =~= before.attached_keys());
                assert(self.comments@.take(before.comments@.len() as int) =~= before.comments@);
                assert(self.attached_keys() == before.attached_keys());
                assert forall|i: int| 0 <= i < self.attached@.len() implies #[trigger] self.grounded_at(i) by {
                    assert(before.grounded_at(i));
                }
                assert(self.synced());
            }
        }
        proof {
            self.lemma_attached_is_adopted();
        }
    }
}

impl CommentList {
    /// Merges a decoded batch: each comment as `add_reply` does, in batch order, and each
    /// stub appended to the expansion queue.
    pub fn merge_more_comments(&mut self, things: Vec<Thing>)
        requires
            old(self).wf(),
        ensures
            final(self).wf(),
            final(self).arrived() == old(self).arrived().union(comment_keys(things@)),
            final(self).pending() == old(self).pending() + stubs(things@),
            final(self).root() == old(self).root(),
            final(self).link() == old(self).link(),
            final(self).drained() == old(self).drained(),
            final(self).built() == old(self).built(),
            old(self).attached_keys().len() <= final(self).attached_keys().len(),
            final(self).attached_keys().take(old(self).attached_keys().len() as int) == old(
                self,
            ).attached_keys(),
            final(self).queue().take(old(self).queue().len() as int) == old(self).queue(),
            final(self).attached_set() == adopted(final(self).arrived(), final(self).root(), final(self).built_set()),
            final(self).view() == merge_view(old(self).view(), things@),
            final(self).held() == old(self).held().add(batch_keys(things@).to_multiset()),
    {
        let ghost all = things@;
        let total = things.len();
        let mut rest = things;
        let mut n: usize = 0;
        assert(all.take(0) =~= Seq::<Thing>::empty());
        proof {
            broadcast use vstd::seq_lib::group_to_multiset_ensures;
            assert(batch_keys(all.take(0)) =~= Seq::<Key>::empty());
            assert(batch_keys(all.take(0)).to_multiset() =~= Multiset::<Key>::empty());
            assert(old(self).held().add(batch_keys(all.take(0)).to_multiset()) =~= old(self).held());
        }
        assert(comment_keys(all.take(0)) =~= Set::<Key>::empty());
        assert(old(self).arrived().union(Set::<Key>::empty()) =~= old(self).arrived());
        assert(old(self).more@ + Seq::<More>::empty() =~= old(self).more@);
        while rest.len() > 0
            invariant
                self.wf(),
                n <= all.len(),
                all.len() == total,
                rest@ == all.skip(n as int),
                self.arrived() == old(self).arrived().union(comment_keys(all.take(n as int))),
                self.pending() == old(self).pending() + stubs(all.take(n as int)),
                self.view() == merge_view(old(self).view(), all.take(n as int)),
                self.held() == old(self).held().add(batch_keys(all.take(n as int)).to_multiset()),
                self.root() == old(self).root(),
                self.link() == old(self).link(),
                self.drained() == old(self).drained(),
                self.built() == old(self).built(),
                old(self).attached_keys().len() <= self.attached_keys().len(),
                self.attached_keys().take(old(self).attached_keys().len() as int) == old(
                    self,
                ).attached_keys(),
                old(self).queue().len() <= self.queue().len(),
                self.queue().take(old(self).queue().len() as int) == old(self).queue(),
            decreases rest@.len(),
        {
            let ghost before = *self;
            let t = rest.remove(0);
            assert(t == all[n as int]);
            proof {
                lemma_stubs_step(all, n as int);
                lemma_comment_keys_step(all, n as int);
                assert(all.take(n as int + 1).drop_last() =~= all.take(n as int));
                assert(all.take(n as int + 1).last() == all[n as int]);
                broadcast use vstd::seq_lib::group_to_multiset_ensures;
            }
            match t {
                Thing::Comment(c) => {
                    self.add_reply(c);
                    assert(self.arrived() =~= old(self).arrived().union(
                        comment_keys(all.take(n as int + 1)),
                    ));
                    assert(self.held() =~= old(self).held().add(
                        batch_keys(all.take(n as int + 1)).to_multiset(),
                    ));
                },
                Thing::More(m) => {
                    self.more.push(m);
                    assert forall|i: int| 0 <= i < self.attached@.len() implies #[trigger] self.grounded_at(i) by {
                        assert(before.grounded_at(i));
                    }
                    assert forall|k: int| 0 <= k < self.orphans@.len() implies #[trigger] self.blocked(
                        self.orphans()[k].key(),
                    ) by {
                        assert(before.blocked(before.orphans()[k].key()));
                    }
                    assert(self.pending() =~= old(self).pending() + stubs(all.take(n as int + 1)));
                    assert(self.view() =~= merge_view(old(self).view(), all.take(n as int + 1)));
                    assert(self.held() =~= old(self).held().add(
                        batch_keys(all.take(n as int + 1)).to_multiset(),
                    ));
                },
            }
            proof {
                let ol = old(self).attached_keys().len() as int;
                let bl = before.attached_keys().len() as int;
                assert forall|j: int| 0 <= j < ol implies self.attached_keys()[j]
                    == old(self).attached_keys()[j] by {
                    assert(self.attached_keys().take(bl)[j] == before.attached_keys()[j]);
                    assert(before.attached_keys().take(ol)[j] == old(self).attached_keys()[j]);
                }
                assert(self.attached_keys().take(ol) =~= old(self).attached_keys());
                let oq = old(self).queue().len() as int;
                let bq = before.queue().len() as int;
                assert forall|j: int| 0 <= j < oq implies self.queue()[j] == old(self).queue()[j] by {
                    assert(self.queue().take(bq)[j] == before.queue()[j]);
                    assert(before.queue().take(oq)[j] == old(self).queue()[j]);
                }
                assert(self.queue().take(oq) =~= old(self).queue());
            }
            n = n + 1;
            assert(rest@ =~= all.skip(n as int));
        }
        assert(all.take(n as int) =~= all);
        proof {
            self.lemma_attached_is_adopted();
        }
    }

    /// Builds a tree under `parent` from a decoded batch: every comment of the batch is
    /// attached and queued, in batch order, and every stub is queued for expansion, in
    /// batch order. Replies the server embedded in a comment follow it in the batch, so they
    /// are queued behind it. `link_id` is the full name of the submission.
    pub fn new(link_id: String, parent: String, things: Vec<Thing>) -> (r: CommentList)
        ensures
            r.wf(),
            r.view() == build_view(parent@, things@),
            r.link() == link_id@,
            r.drained() == 0,
            r.built() == batch_comments(things@).len(),
    {
        let ghost all = things@;
        let ghost root = parent@;
        let ghost link = link_id@;
        let total = things.len();
        let mut r = CommentList {
            link_id,
            parent,
            attached: Vec::new(),
            drained: 0,
            built: 0,
            comments: Vec::new(),
            more: Vec::new(),
            orphans: Vec::new(),
        };
        let mut rest = things;
        let mut n: usize = 0;
        assert(all.take(0) =~= Seq::<Thing>::empty());
        assert(r.attached_keys() =~= Seq::<Key>::empty());
        assert(keys_of(r.comments@) =~= Seq::<Key>::empty());
        assert(r.more@ =~= stubs(all.take(0)));
        while rest.len() > 0
            invariant
                n <= all.len(),
                all.len() == total,
                rest@ == all.skip(n as int),
                r.comments@ == batch_comments(all.take(n as int)),
                r.attached_keys() == keys_of(r.comments@),
                r.built == r.attached@.len(),
                r.drained == 0,
                r.more@ == stubs(all.take(n as int)),
                r.orphans@ == Seq::<Comment>::empty(),
                r.parent@ == root,
                r.link_id@ == link,
            decreases rest@.len(),
        {
            let t = rest.remove(0);
            assert(t == all[n as int]);
            proof {
                lemma_stubs_step(all, n as int);
                lemma_batch_comments_step(all, n as int);
            }
            assert(r.attached_keys().len() == r.attached@.len());
            assert(r.attached_keys().skip(0) =~= r.attached_keys());
            match t {
                Thing::Comment(c) => {
                    let ghost cc = c;
                    r.attach(c);
                    r.built = r.attached.len();
                    assert(keys_of(r.comments@) =~= r.attached_keys());
                    assert(r.comments@ == batch_comments(all.take(n as int + 1)));
                },
                Thing::More(m) => {
                    r.more.push(m);
                },
            }
            n = n + 1;
            assert(rest@ =~= all.skip(n as int));
        }
        assert(all.take(n as int) =~= all);
        assert(r.orphan_keys() =~= Seq::<Key>::empty());
        assert(r.attached_keys().skip(0) =~= r.attached_keys());
        assert(r.view() =~= build_view(root, all));
        r
    }

    /// Takes the next step of draining: the front comment if any is queued, else the front
    /// stub to expand (removed from the queue), else the end.
    pub fn next_step(&mut self) -> (r: TreeStep)
        requires
            old(self).wf(),
        ensures
            final(self).wf(),
            final(self).arrived() == old(self).arrived(),
            final(self).attached_keys() == old(self).attached_keys(),
            final(self).orphans() == old(self).orphans(),
            final(self).built() == old(self).built(),
            r matches TreeStep::Comment(c) ==> old(self).attached_set().contains(c.key()),
            final(self).root() == old(self).root(),
            final(self).link() == old(self).link(),
            old(self).queue().len() > 0 ==> {
                &&& r == TreeStep::Comment(old(self).queue()[0])
                &&& old(self).queue()[0].key() == old(self).attached_keys()[old(self).drained() as int]
                &&& final(self).queue() == old(self).queue().drop_first()
                &&& final(self).drained() == old(self).drained() + 1
                &&& final(self).pending() == old(self).pending()
            },
            old(self).queue().len() == 0 && old(self).pending().len() > 0 ==> {
                &&& r == TreeStep::Expand(old(self).pending()[0])
                &&& final(self).pending() == old(self).pending().drop_first()
                &&& final(self).queue() == old(self).queue()
                &&& final(self).drained() == old(self).drained()
            },
            old(self).queue().len() == 0 && old(self).pending().len() == 0 ==> {
                &&& r is End
                &&& final(self).pending() == old(self).pending()
                &&& final(self).queue() == old(self).queue()
                &&& final(self).drained() == old(self).drained()
            },
    {
        if self.comments.len() > 0 {
            assert(old(self).comments@.map_values(|c: Comment| c.key())[0] == old(self).attached_keys().skip(
                old(self).drained as int,
            )[0]);
            let _total = self.attached.len();
            assert(old(self).attached_keys()[old(self).drained as int] == old(self).comments@[0].key());
            assert(old(self).attached_set().contains(old(self).comments@[0].key()));
            let c = self.comments.remove(0);
            self.drained = self.drained + 1;
            assert(self.comments@.map_values(|c: Comment| c.key()) =~= self.attached_keys().skip(
                self.drained as int,
            )) by {
                assert(old(self).comments@.map_values(|c: Comment| c.key()) =~= old(self).attached_keys().skip(
                    old(self).drained as int,
                ));
                assert forall|j: int| 0 <= j < self.comments@.len() implies #[trigger] self.comments@[j].key()
                    == self.attached_keys()[self.drained + j] by {
                    assert(self.comments@[j] == old(self).comments@[j + 1]);
                    assert(old(self).comments@.map_values(|c: Comment| c.key())[j + 1]
                        == old(self).attached_keys().skip(old(self).drained as int)[j + 1]);
                }
            }
            assert forall|i: int| 0 <= i < self.attached@.len() implies #[trigger] self.grounded_at(i) by {
                assert(old(self).grounded_at(i));
            }
            assert forall|k: int| 0 <= k < self.orphans@.len() implies #[trigger] self.blocked(
                self.orphans()[k].key(),
            ) by {
                assert(old(self).blocked(old(self).orphans()[k].key()));
            }
            TreeStep::Comment(c)
        } else if self.more.len() > 0 {
            let m = self.more.remove(0);
            assert(self.more@ =~= old(self).more@.drop_first());
            assert forall|i: int| 0 <= i < self.attached@.len() implies #[trigger] self.grounded_at(i) by {
                assert(old(self).grounded_at(i));
            }
            assert forall|k: int| 0 <= k < self.orphans@.len() implies #[trigger] self.blocked(
                self.orphans()[k].key(),
            ) by {
                assert(old(self).blocked(old(self).orphans()[k].key()));
            }
            TreeStep::Expand(m)
        } else {
            TreeStep::End
        }
    }
}

proof fn lemma_reach_mono(s: Set<Key>, root: Seq<char>, anchors: Set<Key>, a: nat, b: nat)
    requires
        a <= b,
    ensures
        reach(s, root, anchors, a).subset_of(reach(s, root, anchors, b)),
    decreases b,
{
    if a < b {
        lemma_reach_mono(s, root, anchors, a, (b - 1) as nat);
    }
}

proof fn lemma_reach_within(s: Set<Key>, root: Seq<char>, anchors: Set<Key>, n: nat)
    ensures
        reach(s, root, anchors, n).subset_of(s),
    decreases n,
{
    if n > 0 {
        lemma_reach_within(s, root, anchors, (n - 1) as nat);
    }
}

impl CommentList {
    /// Each attached node is reached from the root within as many steps as its position.
    proof fn lemma_attached_reached(&self, i: int)
        requires
            self.wf(),
            0 <= i < self.attached_keys().len(),
        ensures
            reach(self.arrived(), self.root(), self.built_set(), i as nat).contains(self.attached_keys()[i]),
        decreases i,
    {
        let s = self.arrived();
        let ks = self.attached_keys();
        assert(self.grounded_at(i));
        assert(s.contains(ks[i]));
        if i < self.built() {
            assert(ks.take(self.built() as int)[i] == ks[i]);
            assert(self.built_set().contains(ks[i]));
            lemma_reach_mono(s, self.root(), self.built_set(), 0, i as nat);
        } else if ks[i].1 == self.root() {
            lemma_reach_mono(s, self.root(), self.built_set(), 0, i as nat);
        } else {
            let j = choose|j: int| 0 <= j < i && #[trigger] ks[j].0 == ks[i].1;
            self.lemma_attached_reached(j);
            lemma_reach_mono(s, self.root(), self.built_set(), j as nat, (i - 1) as nat);
            let prev = reach(s, self.root(), self.built_set(), (i - 1) as nat);
            assert(prev.contains(ks[j]));
        }
    }

    /// Whatever is reached from the root within the received nodes is attached.
    proof fn lemma_reached_attached(&self, n: nat)
        requires
            self.wf(),
        ensures
            reach(self.arrived(), self.root(), self.built_set(), n).subset_of(self.attached_set()),
        decreases n,
    {
        let s = self.arrived();
        assert forall|k: Key| #[trigger] reach(s, self.root(), self.built_set(), n).contains(k) implies self.attached_set().contains(k) by {
            lemma_reach_within(s, self.root(), self.built_set(), n);
            if !self.attached_set().contains(k) {
                assert(self.orphan_keys().to_set().contains(k));
                let o = choose|o: int| 0 <= o < self.orphan_keys().len() && self.orphan_keys()[o] == k;
                assert(self.orphans@[o].key() == k);
                assert(self.blocked(k));
                if self.built_set().contains(k) {
                    let j = choose|j: int| 0 <= j < self.built() && self.attached_keys().take(self.built() as int)[j] == k;
                    assert(self.attached_keys()[j] == k);
                }
                if n > 0 {
                    let prev = reach(s, self.root(), self.built_set(), (n - 1) as nat);
                    self.lemma_reached_attached((n - 1) as nat);
                    if !prev.contains(k) {
                        let m = choose|m: Key| #[trigger] prev.contains(m) && m.0 == k.1;
                        assert(self.attached_set().contains(m));
                        let j = choose|j: int| 0 <= j < self.attached_keys().len() && self.attached_keys()[j] == m;
                        assert(self.attached_keys()[j].0 != k.1);
                    }
                }
            }
        }
    }

    /// The attached nodes are exactly those of the received nodes whose chain of parents,
    /// through received nodes, ends at the root or at a node the tree was built from.
    pub proof fn lemma_attached_is_adopted(&self)
        requires
            self.wf(),
        ensures
            self.attached_set() == adopted(self.arrived(), self.root(), self.built_set()),
    {
        let s = self.arrived();
        assert forall|k: Key| self.attached_set().contains(k) <==> #[trigger] adopted(s, self.root(), self.built_set()).contains(k) by {
            if self.attached_set().contains(k) {
                let i = choose|i: int| 0 <= i < self.attached_keys().len() && self.attached_keys()[i] == k;
                self.lemma_attached_reached(i);
                assert(reach(s, self.root(), self.built_set(), i as nat).contains(k));
            }
            if adopted(s, self.root(), self.built_set()).contains(k) {
                let n = choose|n: nat| #[trigger] reach(s, self.root(), self.built_set(), n).contains(k);
                self.lemma_reached_attached(n);
            }
        }
        assert(self.attached_set() =~= adopted(s, self.root(), self.built_set()));
    }

    /// The order in which comments arrive, across any number of merges, does not matter:
    /// two trees under the same root, built from the same nodes, that received the same
    /// comments have attached the same nodes, with the same parent links.
    pub proof fn lemma_arrival_order_irrelevant(a: &CommentList, b: &CommentList)
        requires
            a.wf(),
            b.wf(),
            a.root() == b.root(),
            a.built_set() == b.built_set(),
            a.arrived() == b.arrived(),
        ensures
            a.attached_set() == b.attached_set(),
    {
        a.lemma_attached_is_adopted();
        b.lemma_attached_is_adopted();
    }

    /// A chain of received comments that starts under the root, each the parent of the next,
    /// is attached whole, whatever order its members arrived in, and none of it is left
    /// waiting.
    pub proof fn lemma_chain_adopted(&self, chain: Seq<Key>)
        requires
            self.wf(),
            chain.len() > 0,
            chain[0].1 == self.root(),
            forall|i: int| 0 < i < chain.len() ==> #[trigger] chain[i].1 == chain[i - 1].0,
            forall|i: int| 0 <= i < chain.len() ==> self.arrived().contains(#[trigger] chain[i]),
        ensures
            forall|i: int| 0 <= i < chain.len() ==> self.attached_set().contains(#[trigger] chain[i]),
            forall|i: int| 0 <= i < chain.len() ==> !self.orphan_keys().contains(#[trigger] chain[i]),
    {
        let s = self.arrived();
        assert forall|i: int| 0 <= i < chain.len() implies reach(s, self.root(), self.built_set(), i as nat).contains(
            #[trigger] chain[i],
        ) by {
            self.lemma_chain_reached(chain, i);
        }
        assert forall|i: int| 0 <= i < chain.len() implies self.attached_set().contains(#[trigger] chain[i]) by {
            assert(reach(s, self.root(), self.built_set(), i as nat).contains(chain[i]));
            self.lemma_reached_attached(i as nat);
        }
        assert forall|i: int| 0 <= i < chain.len() implies !self.orphan_keys().contains(#[trigger] chain[i]) by {
            if self.orphan_keys().contains(chain[i]) {
                let k = choose|k: int| 0 <= k < self.orphan_keys().len() && self.orphan_keys()[k] == chain[i];
                assert(self.blocked(self.orphans()[k].key()));
                if i > 0 {
                    assert(self.attached_set().contains(chain[i - 1]));
                    let j = choose|j: int| 0 <= j < self.attached_keys().len() && self.attached_keys()[j] == chain[i - 1];
                    assert(self.attached_keys()[j].0 == chain[i].1);
                }
            }
        }
    }

    proof fn lemma_chain_reached(&self, chain: Seq<Key>, i: int)
        requires
            chain.len() > 0,
            chain[0].1 == self.root(),
            forall|i: int| 0 < i < chain.len() ==> #[trigger] chain[i].1 == chain[i - 1].0,
            forall|i: int| 0 <= i < chain.len() ==> self.arrived().contains(#[trigger] chain[i]),
            0 <= i < chain.len(),
        ensures
            reach(self.arrived(), self.root(), self.built_set(), i as nat).contains(chain[i]),
        decreases i,
    {
        let s = self.arrived();
        if i > 0 {
            self.lemma_chain_reached(chain, i - 1);
            assert(s.contains(chain[i]));
            let prev = reach(s, self.root(), self.built_set(), (i - 1) as nat);
            assert(prev.contains(chain[i - 1]) && chain[i - 1].0 == chain[i].1);
        } else {
            assert(s.contains(chain[0]));
        }
    }

    /// A merged comment whose parent is neither the root nor any received comment is never
    /// attached, and so never handed out.
    pub proof fn lemma_unresolved_omitted(&self, k: Key)
        requires
            self.wf(),
            k.1 != self.root(),
            !self.built_set().contains(k),
            forall|m: Key| #[trigger] self.arrived().contains(m) ==> m.0 != k.1,
        ensures
            !self.attached_set().contains(k),
            !self.yielded().contains(k),
    {
        if self.attached_set().contains(k) {
            let i = choose|i: int| 0 <= i < self.attached_keys().len() && self.attached_keys()[i] == k;
            assert(self.grounded_at(i));
            let ks = self.attached_keys();
            if i < self.built() {
                assert(ks.take(self.built() as int)[i] == k);
            }
            let j = choose|j: int| 0 <= j < i && #[trigger] ks[j].0 == ks[i].1;
            assert(self.arrived().contains(ks[j]));
        }
        if self.yielded().contains(k) {
            let i = choose|i: int| 0 <= i < self.yielded().len() && self.yielded()[i] == k;
            assert(self.attached_keys()[i] == k);
        }
    }
}

proof fn lemma_ranked_reached(s: Set<Key>, root: Seq<char>, anchors: Set<Key>, rank: spec_fn(Key) -> nat, n: nat)
    requires
        forall|k: Key| #[trigger] s.contains(k) ==> k.1 == root || exists|m: Key|
            s.contains(m) && m.0 == k.1 && #[trigger] rank(m) < rank(k),
    ensures
        forall|k: Key| #[trigger] s.contains(k) && rank(k) <= n ==> reach(s, root, anchors, n).contains(k),
    decreases n,
{
    if n > 0 {
        lemma_ranked_reached(s, root, anchors, rank, (n - 1) as nat);
        let prev = reach(s, root, anchors, (n - 1) as nat);
        assert forall|k: Key| #[trigger] s.contains(k) && rank(k) <= n implies reach(s, root, anchors, n).contains(k) by {
            if k.1 == root {
                lemma_reach_mono(s, root, anchors, 0, n);
            } else {
                let m = choose|m: Key| s.contains(m) && m.0 == k.1 && #[trigger] rank(m) < rank(k);
                assert(prev.contains(m));
            }
        }
    } else {
        assert forall|k: Key| #[trigger] s.contains(k) && rank(k) <= n implies reach(s, root, anchors, n).contains(k) by {
            if k.1 != root {
                let m = choose|m: Key| s.contains(m) && m.0 == k.1 && #[trigger] rank(m) < rank(k);
            }
        }
    }
}

proof fn lemma_reach_ignores_unresolved(s: Set<Key>, root: Seq<char>, anchors: Set<Key>, c: Key, n: nat)
    requires
        c.1 != root,
        !anchors.contains(c),
        forall|m: Key| #[trigger] s.contains(m) ==> m.0 != c.1,
    ensures
        reach(s.insert(c), root, anchors, n) == reach(s, root, anchors, n),
    decreases n,
{
    if n > 0 {
        lemma_reach_ignores_unresolved(s, root, anchors, c, (n - 1) as nat);
        lemma_reach_within(s, root, anchors, (n - 1) as nat);
        let prev = reach(s, root, anchors, (n - 1) as nat);
        assert(reach(s.insert(c), root, anchors, n) =~= reach(s, root, anchors, n)) by {
            assert forall|k: Key| #[trigger] reach(s.insert(c), root, anchors, n).contains(k) implies reach(s, root, anchors, n).contains(k) by {
                if k == c && !prev.contains(k) {
                    let m = choose|m: Key| #[trigger] prev.contains(m) && m.0 == k.1;
                    assert(s.contains(m));
                }
            }
        }
    } else {
        assert(reach(s.insert(c), root, anchors, n) =~= reach(s, root, anchors, n));
    }
}

impl CommentList {
    /// When every received comment names as parent the root or another received comment,
    /// and those parent links have no cycle (a rank that drops from each comment to its
    /// parent witnesses that), every received comment is attached.
    pub proof fn lemma_all_adopted_when_parents_arrive(&self, rank: spec_fn(Key) -> nat)
        requires
            self.wf(),
            forall|k: Key| #[trigger] self.arrived().contains(k) ==> k.1 == self.root() || exists|m: Key|
                self.arrived().contains(m) && m.0 == k.1 && #[trigger] rank(m) < rank(k),
        ensures
            self.arrived().subset_of(self.attached_set()),
    {
        let s = self.arrived();
        assert forall|k: Key| #[trigger] s.contains(k) implies self.attached_set().contains(k) by {
            lemma_ranked_reached(s, self.root(), self.built_set(), rank, rank(k));
            self.lemma_reached_attached(rank(k));
        }
    }

    /// A comment `c` whose parent never appears changes nothing else: a tree that also
    /// received `c` has attached exactly the nodes a tree without it has, under the same root
    /// and built from the same nodes.
    pub proof fn lemma_unresolved_changes_nothing(a: &CommentList, b: &CommentList, c: Key)
        requires
            a.wf(),
            b.wf(),
            a.root() == b.root(),
            a.built_set() == b.built_set(),
            b.arrived() == a.arrived().insert(c),
            c.1 != a.root(),
            !a.built_set().contains(c),
            forall|m: Key| #[trigger] a.arrived().contains(m) ==> m.0 != c.1,
        ensures
            b.attached_set() == a.attached_set(),
    {
        a.lemma_attached_is_adopted();
        b.lemma_attached_is_adopted();
        let s = a.arrived();
        assert forall|n: nat| #[trigger] reach(b.arrived(), b.root(), b.built_set(), n) == reach(s, a.root(), a.built_set(), n) by {
            lemma_reach_ignores_unresolved(s, a.root(), a.built_set(), c, n);
        }
        assert forall|k: Key| #[trigger] adopted(b.arrived(), b.root(), b.built_set()).contains(k)
            == adopted(s, a.root(), a.built_set()).contains(k) by {
            if adopted(b.arrived(), b.root(), b.built_set()).contains(k) {
                let n = choose|n: nat| #[trigger] reach(b.arrived(), b.root(), b.built_set(), n).contains(k);
                assert(reach(s, a.root(), a.built_set(), n).contains(k));
            }
            if adopted(s, a.root(), a.built_set()).contains(k) {
                let n = choose|n: nat| #[trigger] reach(s, a.root(), a.built_set(), n).contains(k);
                assert(reach(b.arrived(), b.root(), b.built_set(), n).contains(k));
            }
        }
        assert(adopted(b.arrived(), b.root(), b.built_set()) =~= adopted(s, a.root(), a.built_set()));
    }
}

/// The full names of the nodes of `ks` whose parent is `p`, in order.
pub open spec fn children_of(ks: Seq<Key>, p: Seq<char>) -> Seq<Seq<char>>
    decreases ks.len(),
{
    if ks.len() == 0 {
        Seq::empty()
    } else {
        let rest = children_of(ks.drop_last(), p);
        if ks.last().1 == p {
            rest.push(ks.last().0)
        } else {
            rest
        }
    }
}

/// The request body that asks for the children of a stub.
pub open spec fn expansion_request(link: Seq<char>, children: Seq<Seq<char>>) -> Seq<char> {
    "api_type=json&raw_json=1&link_id="@ + link + "&children="@ + comma_joined(children)
}

impl CommentList {
    /// The full names of the attached replies of `name`, in the order they were attached.
    pub fn replies_of(&self, name: &String) -> (r: Vec<String>)
        requires
            self.wf(),
        ensures
            r@.map_values(|s: String| s@) == children_of(self.attached_keys(), name@),
    {
        let ghost ks = self.attached_keys();
        let mut r: Vec<String> = Vec::new();
        let mut i: usize = 0;
        assert(ks.take(0) =~= Seq::<Key>::empty());
        assert(r@.map_values(|s: String| s@) =~= Seq::<Seq<char>>::empty());
        while i < self.attached.len()
            invariant
                i <= self.attached@.len(),
                ks == self.attached_keys(),
                r@.map_values(|s: String| s@) == children_of(ks.take(i as int), name@),
            decreases self.attached@.len() - i,
        {
            assert(ks.take(i as int + 1).drop_last() =~= ks.take(i as int));
            assert(ks.take(i as int + 1).last() == ks[i as int]);
            if self.attached[i].parent == *name {
                let ghost before = r@;
                r.push(self.attached[i].id.clone());
                assert(r@.map_values(|s: String| s@) =~= before.map_values(|s: String| s@).push(
                    ks[i as int].0,
                ));
            }
            i = i + 1;
        }
        assert(ks.take(i as int) =~= ks);
        r
    }

    /// Hands out up to `n` queued comments without expanding any stub.
    pub fn take_ready(&mut self, n: usize) -> (r: Vec<Comment>)
        requires
            old(self).wf(),
        ensures
            final(self).wf(),
            r@.len() == vstd::math::min(n as int, old(self).queue().len() as int),
            r@ == old(self).queue().take(r@.len() as int),
            final(self).queue() == old(self).queue().skip(r@.len() as int),
            final(self).drained() == old(self).drained() + r@.len(),
            final(self).pending() == old(self).pending(),
            final(self).arrived() == old(self).arrived(),
            final(self).attached_keys() == old(self).attached_keys(),
            final(self).orphans() == old(self).orphans(),
            final(self).built() == old(self).built(),
            final(self).root() == old(self).root(),
            final(self).link() == old(self).link(),
    {
        let mut r: Vec<Comment> = Vec::new();
        while r.len() < n && self.comments.len() > 0
            invariant
                self.wf(),
                r@.len() <= n,
                r@.len() <= old(self).queue().len(),
                r@ == old(self).queue().take(r@.len() as int),
                self.queue() == old(self).queue().skip(r@.len() as int),
                self.drained() == old(self).drained() + r@.len(),
                self.pending() == old(self).pending(),
                self.arrived() == old(self).arrived(),
                self.attached_keys() == old(self).attached_keys(),
                self.orphans() == old(self).orphans(),
                self.built() == old(self).built(),
                self.root() == old(self).root(),
                self.link() == old(self).link(),
            decreases self.comments@.len(),
        {
            let step = self.next_step();
            match step {
                TreeStep::Comment(c) => {
                    let ghost before = r@;
                    r.push(c);
                    assert(r@ =~= old(self).queue().take(r@.len() as int));
                    assert(self.queue() =~= old(self).queue().skip(r@.len() as int));
                },
                _ => {},
            }
        }
        r
    }

    /// Moves queued comments into `taken` until it holds `limit` or nothing is queued; if
    /// more are still wanted and a stub is pending, hands the stub out for expansion (the
    /// caller merges the answer and steps again), else reports that taking is done.
    pub fn take_step(&mut self, taken: &mut Vec<Comment>, limit: usize) -> (r: TakeStep)
        requires
            old(self).wf(),
        ensures
            final(self).wf(),
            final(self).attached_keys() == old(self).attached_keys(),
            final(self).orphans() == old(self).orphans(),
            final(self).built() == old(self).built(),
            final(self).root() == old(self).root(),
            final(self).link() == old(self).link(),
            ({
                let want = if old(taken)@.len() < limit {
                    limit - old(taken)@.len()
                } else {
                    0
                };
                let k = vstd::math::min(want, old(self).queue().len() as int);
                &&& final(taken)@ == old(taken)@ + old(self).queue().take(k)
                &&& final(self).queue() == old(self).queue().skip(k)
                &&& final(self).drained() == old(self).drained() + k
                &&& if final(taken)@.len() < limit && old(self).pending().len() > 0 {
                    &&& r == TakeStep::Expand(old(self).pending()[0])
                    &&& final(self).pending() == old(self).pending().drop_first()
                } else {
                    &&& r is Done
                    &&& final(self).pending() == old(self).pending()
                }
            }),
    {
        let want: usize = if taken.len() < limit {
            limit - taken.len()
        } else {
            0
        };
        let mut got = self.take_ready(want);
        taken.append(&mut got);
        if taken.len() < limit {
            match self.next_step() {
                TreeStep::Expand(m) => TakeStep::Expand(m),
                _ => TakeStep::Done,
            }
        } else {
            TakeStep::Done
        }
    }

    /// The full name of the submission these comments belong to.
    pub fn link_id(&self) -> (r: &String)
        ensures
            r@ == self.link(),
    {
        &self.link_id
    }

    /// The full name that top-level comments name as their parent.
    pub fn parent_id(&self) -> (r: &String)
        ensures
            r@ == self.root(),
    {
        &self.parent
    }

    /// The body of the request that fetches the children of `more`.
    pub fn expansion_body(&self, more: &More) -> (r: String)
        ensures
            r@ == expansion_request(self.link(), more.children@.map_values(|p: String| p@)),
    {
        let mut r = String::from_str("api_type=json&raw_json=1&link_id=");
        r.append(self.link_id.as_str());
        r.append("&children=");
        let joined = join_commas(&more.children);
        r.append(joined.as_str());
        r
    }
}

/// The two kinds of unit a batch of replies may hold.
pub enum UnitKind {
    Comment,
    More,
}

/// Tells the kind of a decoded unit from its `kind` tag: `t1` is a comment, `more` an
/// expansion stub; any other tag makes the batch malformed.
pub fn classify(kind: &str) -> (r: Result<UnitKind, APIError>)
    ensures
        kind@ == "t1"@ <==> r matches Ok(UnitKind::Comment),
        kind@ == "more"@ <==> r matches Ok(UnitKind::More),
        r matches Err(e) ==> (e matches APIError::MalformedResponse(k) && k@ == kind@),
{
    let k = kind.to_owned();
    proof {
        reveal_strlit("t1");
        reveal_strlit("more");
        assert("t1"@.len() != "more"@.len());
    }
    if k == String::from_str("t1") {
        Ok(UnitKind::Comment)
    } else if k == String::from_str("more") {
        Ok(UnitKind::More)
    } else {
        Err(APIError::MalformedResponse(k))
    }
}

/// When no waiting comment names any node at or after position `i` of `att` as its parent,
/// adoption takes nothing and leaves the registry as it is.
pub proof fn lemma_adopt_nothing_waiting(att: Seq<Key>, orph: Seq<Comment>, i: nat)
    requires
        forall|k: int, j: int|
            0 <= k < orph.len() && i <= j < att.len() ==> #[trigger] orph[k].data.parent_id@
                != #[trigger] att[j].0,
    ensures
        adopt(att, orph, i) == (Seq::<Comment>::empty(), orph),
    decreases att.len() - i,
{
    if i < att.len() {
        lemma_split_nothing_waiting(orph, att[i as int].0);
        lemma_split_waiting(orph, att[i as int].0);
        lemma_adopt_nothing_waiting(att, orph, i + 1);
    }
}

proof fn lemma_split_nothing_waiting(orph: Seq<Comment>, id: Seq<char>)
    requires
        forall|k: int| 0 <= k < orph.len() ==> #[trigger] orph[k].data.parent_id@ != id,
    ensures
        split_waiting(orph, id).1 == orph,
    decreases orph.len(),
{
    if orph.len() > 0 {
        lemma_split_nothing_waiting(orph.drop_last(), id);
        assert(orph.drop_last().push(orph.last()) =~= orph);
    }
}

/// The tree `new` builds under `x` from the batch `[a, stub m]`.
pub open spec fn first_batch(a: Comment, m: More, x: Seq<char>) -> TreeView {
    build_view(x, seq![Thing::Comment(a), Thing::More(m)])
}

/// The same tree once `a` was handed out and the stub taken for expansion.
pub open spec fn first_batch_drained(a: Comment, m: More, x: Seq<char>) -> TreeView {
    TreeView { queue: Seq::empty(), pending: Seq::empty(), ..first_batch(a, m, x) }
}

/// A tree built from a top-level comment `a` and a stub queues `a` and then the stub; when
/// the stub's answer holds two replies `b` and `c` of `a`, they are queued in answer order
/// behind everything already handed out, and nothing is left waiting.
pub proof fn lemma_expansion_follows_parent(a: Comment, b: Comment, c: Comment, m: More, x: Seq<char>)
    requires
        a.key().1 == x,
        b.key().1 == a.key().0,
        c.key().1 == a.key().0,
    ensures
        first_batch(a, m, x).queue == seq![a],
        first_batch(a, m, x).pending == seq![m],
        first_batch(a, m, x).orphans == Seq::<Comment>::empty(),
        merge_view(first_batch_drained(a, m, x), seq![Thing::Comment(b), Thing::Comment(c)]).queue
            == seq![b, c],
        merge_view(first_batch_drained(a, m, x), seq![Thing::Comment(b), Thing::Comment(c)]).attached
            == seq![a.key(), b.key(), c.key()],
        merge_view(first_batch_drained(a, m, x), seq![Thing::Comment(b), Thing::Comment(c)]).orphans
            == Seq::<Comment>::empty(),
{
    let v2 = first_batch_drained(a, m, x);
    lemma_first_batch(a, m, x);
    let t2: Seq<Thing> = seq![Thing::Comment(b), Thing::Comment(c)];
    assert(t2.drop_last() =~= seq![Thing::Comment(b)]);
    assert(t2.drop_last().drop_last() =~= Seq::<Thing>::empty());
    assert(v2.attached[0].0 == b.key().1);
    assert(attaches(v2, b.key()));
    lemma_adopt_nothing_waiting(v2.attached.push(b.key()), v2.orphans, v2.attached.len() as nat);
    let v3 = add_view(v2, b);
    assert(merge_view(v2, t2.drop_last().drop_last()) == v2);
    assert(merge_view(v2, t2.drop_last()) == v3);
    assert(v3.attached[0].0 == c.key().1);
    assert(attaches(v3, c.key()));
    lemma_adopt_nothing_waiting(v3.attached.push(c.key()), v3.orphans, v3.attached.len() as nat);
    let v4 = merge_view(v2, t2);
    assert(v4.queue =~= seq![b, c]);
    assert(v4.attached =~= seq![a.key(), b.key(), c.key()]);
}

/// When the stub's answer holds `c` before its own parent `b`, a reply of `a`: `c` waits
/// until `b` is attached and is then adopted right behind it, so both are queued, `b`
/// first, and nothing is left waiting.
pub proof fn lemma_out_of_order_expansion(a: Comment, b: Comment, c: Comment, m: More, x: Seq<char>)
    requires
        a.key().1 == x,
        b.key().1 == a.key().0,
        c.key().1 == b.key().0,
        b.key().0 != x,
        b.key().0 != a.key().0,
    ensures
        merge_view(first_batch_drained(a, m, x), seq![Thing::Comment(c), Thing::Comment(b)]).queue
            == seq![b, c],
        merge_view(first_batch_drained(a, m, x), seq![Thing::Comment(c), Thing::Comment(b)]).attached
            == seq![a.key(), b.key(), c.key()],
        merge_view(first_batch_drained(a, m, x), seq![Thing::Comment(c), Thing::Comment(b)]).orphans
            == Seq::<Comment>::empty(),
{
    let v2 = first_batch_drained(a, m, x);
    lemma_first_batch(a, m, x);
    let t2: Seq<Thing> = seq![Thing::Comment(c), Thing::Comment(b)];
    assert(t2.drop_last() =~= seq![Thing::Comment(c)]);
    assert(t2.drop_last().drop_last() =~= Seq::<Thing>::empty());
    assert(!attaches(v2, c.key()));
    let v3 = add_view(v2, c);
    assert(merge_view(v2, t2.drop_last().drop_last()) == v2);
    assert(merge_view(v2, t2.drop_last()) == v3);
    assert(v3.orphans =~= seq![c]);
    assert(v3.attached[0].0 == b.key().1);
    assert(attaches(v3, b.key()));
    let att = v3.attached.push(b.key());
    let sw = split_waiting(seq![c], b.key().0);
    assert(seq![c].drop_last() =~= Seq::<Comment>::empty());
    assert(split_waiting(seq![c].drop_last(), b.key().0) == (Seq::<Comment>::empty(), Seq::<Comment>::empty()));
    assert(seq![c].last() == c);
    assert(c.data.parent_id@ == b.key().0);
    assert(Seq::<Comment>::empty().push(c) =~= seq![c]);
    assert(sw.0 =~= seq![c] && sw.1 =~= Seq::<Comment>::empty());
    lemma_adopt_nothing_waiting(att + keys_of(seq![c]), Seq::<Comment>::empty(), 2);
    assert(adopt(att, v3.orphans, 1) == (seq![c] + Seq::<Comment>::empty(), Seq::<Comment>::empty()));
    let v4 = merge_view(v2, t2);
    assert(v4.queue =~= seq![b, c]);
    assert(v4.attached =~= seq![a.key(), b.key(), c.key()]);
}

proof fn lemma_first_batch(a: Comment, m: More, x: Seq<char>)
    ensures
        first_batch(a, m, x).queue == seq![a],
        first_batch(a, m, x).pending == seq![m],
        first_batch(a, m, x).attached == seq![a.key()],
        first_batch(a, m, x).orphans == Seq::<Comment>::empty(),
        first_batch(a, m, x).root == x,
{
    let t1: Seq<Thing> = seq![Thing::Comment(a), Thing::More(m)];
    assert(t1.drop_last() =~= seq![Thing::Comment(a)]);
    assert(t1.drop_last().drop_last() =~= Seq::<Thing>::empty());
    let t0 = t1.drop_last();
    assert(t0.last() == Thing::Comment(a));
    assert(batch_comments(t0.drop_last()) == Seq::<Comment>::empty());
    assert(stubs(t0.drop_last()) == Seq::<More>::empty());
    assert(batch_comments(t0) == Seq::<Comment>::empty().push(a));
    assert(batch_comments(t1.drop_last()) =~= seq![a]);
    assert(batch_comments(t1) =~= seq![a]);
    assert(stubs(t1.drop_last()) =~= Seq::<More>::empty());
    assert(stubs(t1) =~= seq![m]);
    assert(keys_of(seq![a]) =~= seq![a.key()]);
}

} // verus!
