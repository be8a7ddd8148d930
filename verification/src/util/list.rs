//! A list that can be branched at any gap between its elements.
//!
//! All lists and branches live in one [`BranchStore`]; a [`BranchedList`] is
//! a handle to one of the store's branches. Handles to the same branch see
//! each other's changes, and a branch, once made at a gap under a key, is the
//! one found there under that key from then on.
use vstd::prelude::*;

use crate::text::owned;

verus! {

/// Why a list operation failed.
#[derive(Debug, PartialEq, Eq)]
pub enum BranchedListError {
    CursorOutOfBounds,
    EmptyList { message: String },
}

/// The branches that leave one gap: each key with the branch it names.
type BranchEntries = Vec<(String, usize)>;

/// Every list and branch of a family of branched lists.
pub struct BranchStore<T> {
    heads: Vec<BranchHead<T>>,
}

/// The start of a branch: its elements, and the branches that leave it
/// before its first element.
struct BranchHead<T> {
    contents: Vec<Node<T>>,
    head_branches: BranchEntries,
}

/// An element of a branch with the branches that leave right after it.
struct Node<T> {
    value: T,
    branches: BranchEntries,
}

/// A handle to one branch of a [`BranchStore`].
#[derive(Clone, Copy, Debug, PartialEq, Eq, Structural)]
pub struct BranchedList {
    root: usize,
}

/// The target of the first entry for `key`, if any.
pub open spec fn find_branch(entries: Seq<(String, usize)>, key: Seq<char>) -> Option<usize>
    decreases entries.len(),
{
    if entries.len() == 0 {
        None
    } else if entries[0].0@ == key {
        Some(entries[0].1)
    } else {
        find_branch(entries.drop_first(), key)
    }
}

/// Every target of `entries` lies strictly between `owner` and `count`.
pub open spec fn entries_within(entries: Seq<(String, usize)>, owner: int, count: int) -> bool {
    forall|j: int| 0 <= j < entries.len() ==> owner < #[trigger] entries[j].1 < count
}

proof fn lemma_find_branch_within(entries: Seq<(String, usize)>, key: Seq<char>, owner: int, count: int)
    requires
        entries_within(entries, owner, count),
    ensures
        find_branch(entries, key) matches Some(t) ==> owner < t < count,
    decreases entries.len(),
{
    if entries.len() > 0 && entries[0].0@ != key {
        assert(entries_within(entries.drop_first(), owner, count)) by {
            assert forall|j: int| 0 <= j < entries.drop_first().len() implies owner
                < #[trigger] entries.drop_first()[j].1 < count by {
                assert(entries.drop_first()[j] == entries[j + 1]);
            }
        }
        lemma_find_branch_within(entries.drop_first(), key, owner, count);
    }
}

proof fn lemma_find_branch_push(entries: Seq<(String, usize)>, entry: (String, usize), key: Seq<char>)
    ensures
        find_branch(entries.push(entry), key) == if find_branch(entries, key) is Some {
            find_branch(entries, key)
        } else if entry.0@ == key {
            Some(entry.1)
        } else {
            None::<usize>
        },
    decreases entries.len(),
{
    if entries.len() > 0 {
        assert(entries.push(entry)[0] == entries[0]);
        assert(entries.push(entry).drop_first() =~= entries.drop_first().push(entry));
        lemma_find_branch_push(entries.drop_first(), entry, key);
    } else {
        assert(entries.push(entry)[0] == entry);
        assert(entries.push(entry).drop_first() =~= Seq::<(String, usize)>::empty());
        reveal_with_fuel(find_branch, 2);
    }
}

/// Looks `key` up in `entries`, front to back.
fn find_entry(entries: &BranchEntries, key: &String) -> (found: Option<usize>)
    ensures
        found == find_branch(entries@, key@),
{
    let n = entries.len();
    let mut i: usize = 0;
    assert(entries@.skip(0) =~= entries@);
    while i < n
        invariant
            n == entries@.len(),
            0 <= i <= n,
            find_branch(entries@, key@) == find_branch(entries@.skip(i as int), key@),
        decreases n - i,
    {
        assert(entries@.skip(i as int).drop_first() =~= entries@.skip(i + 1));
        if entries[i].0 == *key {
            return Some(entries[i].1);
        }
        i = i + 1;
    }
    None
}

impl<T> BranchStore<T> {
    /// A store without any list.
    pub fn new() -> (store: Self)
        ensures
            store.wf(),
            forall|l: BranchedList| !store.valid(l),
    {
        BranchStore { heads: Vec::new() }
    }

    /// Whether `l` names a branch of this store.
    pub fn holds(&self, l: BranchedList) -> (held: bool)
        ensures
            held == self.valid(l),
    {
        l.root < self.heads.len()
    }

    /// `l` names a branch of this store.
    pub closed spec fn valid(&self, l: BranchedList) -> bool {
        l.root < self.heads@.len()
    }

    /// Every branch entry points to a branch that was made after the branch
    /// it leaves, and that exists.
    pub closed spec fn wf(&self) -> bool {
        forall|h: int|
            #![trigger self.heads@[h]]
            0 <= h < self.heads@.len() ==> {
                &&& entries_within(self.heads@[h].head_branches@, h, self.heads@.len() as int)
                &&& forall|n: int|
                    0 <= n < self.heads@[h].contents@.len() ==> entries_within(
                        #[trigger] self.heads@[h].contents@[n].branches@,
                        h,
                        self.heads@.len() as int,
                    )
            }
    }

    /// The elements of branch `l`, first to last.
    pub closed spec fn contents(&self, l: BranchedList) -> Seq<T> {
        self.heads@[l.root as int].contents@.map_values(|node: Node<T>| node.value)
    }

    /// The entries of the branches that leave branch `l` at `gap`.
    closed spec fn gap_entries(&self, l: BranchedList, gap: int) -> Seq<(String, usize)> {
        if gap == 0 {
            self.heads@[l.root as int].head_branches@
        } else {
            self.heads@[l.root as int].contents@[gap - 1].branches@
        }
    }

    /// The branch that leaves `l` at `gap` under `key`, if one was made.
    pub closed spec fn branch_at(&self, l: BranchedList, key: Seq<char>, gap: int) -> Option<
        BranchedList,
    > {
        if !self.valid(l) || gap < 0 || gap > self.contents(l).len() {
            None
        } else {
            match find_branch(self.gap_entries(l, gap), key) {
                Some(t) => Some(BranchedList { root: t }),
                None => None,
            }
        }
    }

    /// In a well-formed store, a branch found at a gap of a valid list is a
    /// valid list other than the one it leaves.
    pub proof fn lemma_branch_is_other_list(&self, l: BranchedList, key: Seq<char>, gap: int)
        requires
            self.wf(),
            self.valid(l),
        ensures
            self.branch_at(l, key, gap) matches Some(b) ==> self.valid(b) && b != l,
    {
        if 0 <= gap <= self.contents(l).len() {
            let h = l.root as int;
            assert(self.heads@[h].contents@.len() == self.contents(l).len());
            if gap == 0 {
                lemma_find_branch_within(self.gap_entries(l, gap), key, h, self.heads@.len() as int);
            } else {
                assert(entries_within(self.heads@[h].contents@[gap - 1].branches@, h, self.heads@.len() as int));
                lemma_find_branch_within(self.gap_entries(l, gap), key, h, self.heads@.len() as int);
            }
        }
    }
}

/// Every list of `old` other than `except` is a list of `new` with the same
/// elements and the same branches.
pub open spec fn lists_kept<T>(old: BranchStore<T>, new: BranchStore<T>, except: BranchedList) -> bool {
    forall|o: BranchedList|
        #![trigger new.valid(o)]
        old.valid(o) && o != except ==> {
            &&& new.valid(o)
            &&& new.contents(o) == old.contents(o)
            &&& forall|k: Seq<char>, g: int| #[trigger]
                new.branch_at(o, k, g) == old.branch_at(o, k, g)
        }
}

/// Every list of `old` is a list of `new` that begins with the elements it
/// had in `old`: lists only ever grow at their end, and none is lost.
pub open spec fn store_grown<T>(old: BranchStore<T>, new: BranchStore<T>) -> bool {
    forall|l: BranchedList|
        #![trigger new.valid(l)]
        #![trigger new.contents(l)]
        old.valid(l) ==> {
            &&& new.valid(l)
            &&& old.contents(l).len() <= new.contents(l).len()
            &&& forall|i: int|
                0 <= i < old.contents(l).len() ==> #[trigger] new.contents(l)[i] == old.contents(l)[i]
        }
}

/// Growth of a store is a preorder: every store has grown from itself, and
/// growth after growth is growth.
pub proof fn lemma_store_grown_preorder<T>(a: BranchStore<T>, b: BranchStore<T>, c: BranchStore<T>)
    ensures
        store_grown(a, a),
        store_grown(a, b) && store_grown(b, c) ==> store_grown(a, c),
{
    if store_grown(a, b) && store_grown(b, c) {
        assert forall|l: BranchedList| #![trigger c.valid(l)] #![trigger c.contents(l)] a.valid(l) implies {
            &&& c.valid(l)
            &&& a.contents(l).len() <= c.contents(l).len()
            &&& forall|i: int|
                0 <= i < a.contents(l).len() ==> #[trigger] c.contents(l)[i] == a.contents(l)[i]
        } by {
            assert(b.valid(l));
            assert forall|i: int| 0 <= i < a.contents(l).len() implies #[trigger] c.contents(l)[i]
                == a.contents(l)[i] by {
                assert(b.contents(l)[i] == a.contents(l)[i]);
            }
        }
    }
}

/// `l` is a list of `new` that `old` did not have, with the elements
/// `contents` and no branches; every list of `old` is kept.
pub open spec fn list_added<T>(
    old: BranchStore<T>,
    new: BranchStore<T>,
    l: BranchedList,
    contents: Seq<T>,
) -> bool {
    &&& !old.valid(l)
    &&& new.valid(l)
    &&& new.contents(l) == contents
    &&& forall|k: Seq<char>, g: int| #[trigger] new.branch_at(l, k, g) is None
    &&& lists_kept(old, new, l)
    &&& forall|o: BranchedList| #[trigger] new.valid(o) <==> (old.valid(o) || o == l)
}

/// What a request for the branch under `key` at `gap` of `l` gives and
/// leaves: an error when the gap lies past the end (nothing changes); the
/// branch already made there under `key`, if any (nothing changes); else a
/// new empty branch, recorded at that gap under `key`, with every other
/// list and every other branch as before.
pub open spec fn branch_before_post<T>(
    old: BranchStore<T>,
    new: BranchStore<T>,
    l: BranchedList,
    key: Seq<char>,
    gap: int,
    result: Result<BranchedList, BranchedListError>,
) -> bool {
    if gap > old.contents(l).len() {
        result == Err::<BranchedList, BranchedListError>(BranchedListError::CursorOutOfBounds)
            && new == old
    } else {
        match old.branch_at(l, key, gap) {
            Some(b) => result == Ok::<BranchedList, BranchedListError>(b) && new == old,
            None => match result {
                Ok(b) => {
                    &&& !old.valid(b)
                    &&& new.valid(b)
                    &&& new.contents(b) == Seq::<T>::empty()
                    &&& forall|k: Seq<char>, g: int| #[trigger] new.branch_at(b, k, g) is None
                    &&& lists_kept(old, new, l)
                    &&& forall|o: BranchedList| #[trigger] new.valid(o) <==> (old.valid(o) || o == b)
                    &&& new.contents(l) == old.contents(l)
                    &&& new.branch_at(l, key, gap) == Some(b)
                    &&& forall|k: Seq<char>, g: int|
                        !(k == key && g == gap) ==> #[trigger] new.branch_at(l, k, g)
                            == old.branch_at(l, k, g)
                },
                Err(_) => false,
            },
        }
    }
}

/// A second request under the same key at the same gap finds the branch the
/// first one gave.
pub proof fn lemma_branch_reused<T>(
    old: BranchStore<T>,
    new: BranchStore<T>,
    l: BranchedList,
    key: Seq<char>,
    gap: int,
    b: BranchedList,
)
    requires
        old.wf(),
        old.valid(l),
        branch_before_post(old, new, l, key, gap, Ok(b)),
    ensures
        new.branch_at(l, key, gap) == Some(b),
{
}

/// A branch is a list of its own: it is never the list it leaves.
pub proof fn lemma_branch_distinct<T>(
    old: BranchStore<T>,
    new: BranchStore<T>,
    l: BranchedList,
    key: Seq<char>,
    gap: int,
    b: BranchedList,
)
    requires
        old.wf(),
        old.valid(l),
        branch_before_post(old, new, l, key, gap, Ok(b)),
    ensures
        b != l,
        new.valid(b),
{
    old.lemma_branch_is_other_list(l, key, gap);
}

impl BranchedList {
    /// A new list in `store`, with no elements and no branches.
    pub fn empty<T>(store: &mut BranchStore<T>) -> (list: Self)
        requires
            old(store).wf(),
        ensures
            final(store).wf(),
            list_added(*old(store), *final(store), list, Seq::empty()),
    {
        let list = BranchedList { root: store.heads.len() };
        store.heads.push(BranchHead { contents: Vec::new(), head_branches: Vec::new() });
        proof {
            assert(final(store).contents(list) =~= Seq::<T>::empty());
            assert forall|o: BranchedList|
                #![trigger final(store).valid(o)]
                old(store).valid(o) && o != list implies {
                    &&& final(store).valid(o)
                    &&& final(store).contents(o) == old(store).contents(o)
                    &&& forall|k: Seq<char>, g: int| #[trigger]
                        final(store).branch_at(o, k, g) == old(store).branch_at(o, k, g)
                } by {
                assert(final(store).heads@[o.root as int] == old(store).heads@[o.root as int]);
            }
        }
        list
    }

    /// A new list in `store` holding `value` alone, with no branches.
    pub fn with_value<T>(store: &mut BranchStore<T>, value: T) -> (list: Self)
        requires
            old(store).wf(),
        ensures
            final(store).wf(),
            list_added(*old(store), *final(store), list, seq![value]),
    {
        let list = BranchedList { root: store.heads.len() };
        let mut contents: Vec<Node<T>> = Vec::new();
        contents.push(Node { value, branches: Vec::new() });
        store.heads.push(BranchHead { contents, head_branches: Vec::new() });
        proof {
            assert(final(store).contents(list) =~= seq![value]);
            assert forall|k: Seq<char>, g: int| #[trigger] final(store).branch_at(list, k, g) is None by {
                if 0 <= g <= 1 {
                    assert(final(store).gap_entries(list, g) =~= Seq::<(String, usize)>::empty());
                }
            }
            assert forall|o: BranchedList|
                #![trigger final(store).valid(o)]
                old(store).valid(o) && o != list implies {
                    &&& final(store).valid(o)
                    &&& final(store).contents(o) == old(store).contents(o)
                    &&& forall|k: Seq<char>, g: int| #[trigger]
                        final(store).branch_at(o, k, g) == old(store).branch_at(o, k, g)
                } by {
                assert(final(store).heads@[o.root as int] == old(store).heads@[o.root as int]);
            }
        }
        list
    }

    /// A copy of the element at `index`, or `None` past the end.
    pub fn get<T: Clone>(&self, store: &BranchStore<T>, index: usize) -> (value: Option<T>)
        requires
            store.valid(*self),
        ensures
            value is Some <==> index < store.contents(*self).len(),
            value matches Some(v) ==> cloned(store.contents(*self)[index as int], v),
    {
        let head = &store.heads[self.root];
        if index < head.contents.len() {
            Some(head.contents[index].value.clone())
        } else {
            None
        }
    }

    /// The element at `index`, copied out.
    pub(crate) fn copied_at<T: Copy>(&self, store: &BranchStore<T>, index: usize) -> (value: T)
        requires
            store.valid(*self),
            index < store.contents(*self).len(),
        ensures
            value == store.contents(*self)[index as int],
    {
        store.heads[self.root].contents[index].value
    }

    /// Appends `value` at the end of this list; the gap after it has no
    /// branches.
    pub fn append<T>(&self, store: &mut BranchStore<T>, value: T)
        requires
            old(store).wf(),
            old(store).valid(*self),
        ensures
            final(store).wf(),
            final(store).valid(*self),
            final(store).contents(*self) == old(store).contents(*self).push(value),
            forall|k: Seq<char>, g: int| #[trigger]
                final(store).branch_at(*self, k, g) == if g <= old(store).contents(*self).len() {
                    old(store).branch_at(*self, k, g)
                } else {
                    None
                },
            lists_kept(*old(store), *final(store), *self),
            forall|o: BranchedList| #[trigger] final(store).valid(o) <==> old(store).valid(o),
    {
        let len = store.heads[self.root].contents.len();
        self.insert_node(store, value, len);
    }

    /// Inserts `value` before the element at `at_index` (at the end when
    /// `at_index` is the length); fails, changing nothing, past the end.
    /// Branches keep the element they leave after; the new element has none.
    pub fn insert<T>(&self, store: &mut BranchStore<T>, value: T, at_index: usize) -> (result:
        Result<(), BranchedListError>)
        requires
            old(store).wf(),
            old(store).valid(*self),
        ensures
            final(store).wf(),
            at_index > old(store).contents(*self).len() ==> {
                &&& result == Err::<(), BranchedListError>(BranchedListError::CursorOutOfBounds)
                &&& *final(store) == *old(store)
            },
            at_index <= old(store).contents(*self).len() ==> {
                &&& result is Ok
                &&& final(store).valid(*self)
                &&& final(store).contents(*self) == old(store).contents(*self).insert(
                    at_index as int,
                    value,
                )
                &&& forall|k: Seq<char>, g: int| #[trigger]
                    final(store).branch_at(*self, k, g) == if g <= at_index {
                        old(store).branch_at(*self, k, g)
                    } else if g == at_index + 1 {
                        None
                    } else {
                        old(store).branch_at(*self, k, g - 1)
                    }
                &&& lists_kept(*old(store), *final(store), *self)
                &&& forall|o: BranchedList| #[trigger] final(store).valid(o) <==> old(store).valid(o)
            },
    {
        if at_index > store.heads[self.root].contents.len() {
            return Err(BranchedListError::CursorOutOfBounds);
        }
        self.insert_node(store, value, at_index);
        Ok(())
    }

    fn insert_node<T>(&self, store: &mut BranchStore<T>, value: T, at_index: usize)
        requires
            old(store).wf(),
            old(store).valid(*self),
            at_index <= old(store).contents(*self).len(),
        ensures
            final(store).wf(),
            final(store).valid(*self),
            final(store).contents(*self) == old(store).contents(*self).insert(at_index as int, value),
            forall|k: Seq<char>, g: int| #[trigger]
                final(store).branch_at(*self, k, g) == if g <= at_index {
                    old(store).branch_at(*self, k, g)
                } else if g == at_index + 1 {
                    None
                } else {
                    old(store).branch_at(*self, k, g - 1)
                },
            lists_kept(*old(store), *final(store), *self),
            forall|o: BranchedList| #[trigger] final(store).valid(o) <==> old(store).valid(o),
    {
        let ghost old_store = *store;
        let ghost h = self.root as int;
        let ghost old_nodes = store.heads@[h].contents@;
        let node = Node { value, branches: Vec::new() };
        let head = &mut store.heads[self.root];
        head.contents.insert(at_index, node);
        proof {
            let new_nodes = store.heads@[h].contents@;
            assert(new_nodes == old_nodes.insert(at_index as int, node));
            assert(store.contents(*self) =~= old_store.contents(*self).insert(at_index as int, value));
            assert forall|k: Seq<char>, g: int| #[trigger]
                store.branch_at(*self, k, g) == if g <= at_index {
                    old_store.branch_at(*self, k, g)
                } else if g == at_index + 1 {
                    None
                } else {
                    old_store.branch_at(*self, k, g - 1)
                } by {
                if 1 <= g <= at_index {
                    assert(new_nodes[g - 1] == old_nodes[g - 1]);
                } else if g == at_index + 1 {
                    assert(new_nodes[g - 1] == node);
                    assert(node.branches@ =~= Seq::<(String, usize)>::empty());
                } else if g > at_index + 1 && g <= new_nodes.len() {
                    assert(new_nodes[g - 1] == old_nodes[g - 2]);
                }
            }
            assert forall|o: BranchedList|
                #![trigger store.valid(o)]
                old_store.valid(o) && o != *self implies {
                    &&& store.valid(o)
                    &&& store.contents(o) == old_store.contents(o)
                    &&& forall|k: Seq<char>, g: int| #[trigger]
                        store.branch_at(o, k, g) == old_store.branch_at(o, k, g)
                } by {
                assert(store.heads@[o.root as int] == old_store.heads@[o.root as int]);
            }
            assert forall|hh: int|
                #![trigger store.heads@[hh]]
                0 <= hh < store.heads@.len() implies {
                    &&& entries_within(store.heads@[hh].head_branches@, hh, store.heads@.len() as int)
                    &&& forall|n: int|
                        0 <= n < store.heads@[hh].contents@.len() ==> entries_within(
                            #[trigger] store.heads@[hh].contents@[n].branches@,
                            hh,
                            store.heads@.len() as int,
                        )
                } by {
                assert(old_store.heads@[hh] == old_store.heads@[hh]);
                if hh == h {
                    assert forall|n: int| 0 <= n < new_nodes.len() implies entries_within(
                        #[trigger] new_nodes[n].branches@,
                        hh,
                        store.heads@.len() as int,
                    ) by {
                        if n < at_index {
                            assert(new_nodes[n] == old_nodes[n]);
                        } else if n > at_index {
                            assert(new_nodes[n] == old_nodes[n - 1]);
                        }
                    }
                }
            }
        }
    }

    /// The branch under `key` at gap `before_index` of this list: gap 0 lies
    /// before the first element, gap `n` after element `n - 1`. A branch
    /// already made there under `key` is given back as it is; else a new
    /// empty branch is made and recorded there. Fails past the last gap.
    pub fn branch_before_index<T>(
        &self,
        store: &mut BranchStore<T>,
        key: &str,
        before_index: usize,
    ) -> (result: Result<Self, BranchedListError>)
        requires
            old(store).wf(),
            old(store).valid(*self),
        ensures
            final(store).wf(),
            branch_before_post(*old(store), *final(store), *self, key@, before_index as int, result),
    {
        let root_branch_size = store.heads[self.root].contents.len();
        if before_index > root_branch_size {
            return Err(BranchedListError::CursorOutOfBounds);
        }
        let key_string = owned(key);
        let existing = if before_index == 0 {
            find_entry(&store.heads[self.root].head_branches, &key_string)
        } else {
            find_entry(&store.heads[self.root].contents[before_index - 1].branches, &key_string)
        };
        match existing {
            Some(target) => Ok(BranchedList { root: target }),
            None => {
                let ghost old_store = *store;
                let ghost h = self.root as int;
                let new_root = store.heads.len();
                let entry = (key_string, new_root);
                if before_index == 0 {
                    let head = &mut store.heads[self.root];
                    head.head_branches.push(entry);
                } else {
                    let head = &mut store.heads[self.root];
                    let node = &mut head.contents[before_index - 1];
                    node.branches.push(entry);
                }
                let ghost mid_store = *store;
                store.heads.push(BranchHead { contents: Vec::new(), head_branches: Vec::new() });
                let b = BranchedList { root: new_root };
                proof {
                    self.lemma_branch_made(old_store, mid_store, *store, key@, before_index as int, entry, b);
                }
                Ok(b)
            },
        }
    }

    /// The branch under `key` right after the element at `after_index`:
    /// the same as `branch_before_index(key, after_index + 1)`, but it
    /// fails, changing nothing, unless `after_index` names an element.
    pub fn branch_after_index<T>(
        &self,
        store: &mut BranchStore<T>,
        key: &str,
        after_index: usize,
    ) -> (result: Result<Self, BranchedListError>)
        requires
            old(store).wf(),
            old(store).valid(*self),
        ensures
            final(store).wf(),
            after_index >= old(store).contents(*self).len() ==> {
                &&& result == Err::<BranchedList, BranchedListError>(BranchedListError::CursorOutOfBounds)
                &&& *final(store) == *old(store)
            },
            after_index < old(store).contents(*self).len() ==> branch_before_post(
                *old(store),
                *final(store),
                *self,
                key@,
                after_index + 1,
                result,
            ),
    {
        let root_branch_size = store.heads[self.root].contents.len();
        if after_index >= root_branch_size {
            return Err(BranchedListError::CursorOutOfBounds);
        }
        self.branch_before_index(store, key, after_index + 1)
    }

    /// Another handle to this same list: changes made through either are
    /// seen through both.
    pub fn snapshot(&self) -> (copy: Self)
        ensures
            copy == *self,
    {
        BranchedList { root: self.root }
    }

    /// The number of elements of this list (branches not counted).
    pub fn root_branch_size<T>(&self, store: &BranchStore<T>) -> (size: usize)
        requires
            store.valid(*self),
        ensures
            size == store.contents(*self).len(),
    {
        store.heads[self.root].contents.len()
    }

    /// Whether this list has no elements (branches not counted).
    pub fn root_branch_empty<T>(&self, store: &BranchStore<T>) -> (empty: bool)
        requires
            store.valid(*self),
        ensures
            empty == (store.contents(*self).len() == 0),
    {
        store.heads[self.root].contents.len() == 0
    }

    proof fn lemma_branch_made<T>(
        self,
        old_store: BranchStore<T>,
        mid_store: BranchStore<T>,
        new_store: BranchStore<T>,
        key: Seq<char>,
        gap: int,
        entry: (String, usize),
        b: BranchedList,
    )
        requires
            old_store.wf(),
            old_store.valid(self),
            0 <= gap <= old_store.contents(self).len(),
            old_store.branch_at(self, key, gap) is None,
            entry.0@ == key,
            entry.1 == old_store.heads@.len(),
            b.root == entry.1,
            mid_store.heads@.len() == old_store.heads@.len(),
            forall|hh: int| 0 <= hh < old_store.heads@.len() && hh != self.root ==>
                #[trigger] mid_store.heads@[hh] == old_store.heads@[hh],
            gap == 0 ==> {
                &&& mid_store.heads@[self.root as int].contents == old_store.heads@[self.root as int].contents
                &&& mid_store.heads@[self.root as int].head_branches@
                    == old_store.heads@[self.root as int].head_branches@.push(entry)
            },
            gap > 0 ==> {
                &&& mid_store.heads@[self.root as int].head_branches == old_store.heads@[self.root as int].head_branches
                &&& mid_store.heads@[self.root as int].contents@ == old_store.heads@[self.root as int].contents@.update(
                    gap - 1,
                    Node {
                        value: old_store.heads@[self.root as int].contents@[gap - 1].value,
                        branches: mid_store.heads@[self.root as int].contents@[gap - 1].branches,
                    },
                )
                &&& mid_store.heads@[self.root as int].contents@[gap - 1].branches@
                    == old_store.heads@[self.root as int].contents@[gap - 1].branches@.push(entry)
            },
            new_store.heads@ == mid_store.heads@.push(
                BranchHead { contents: new_store.heads@.last().contents, head_branches: new_store.heads@.last().head_branches },
            ),
            new_store.heads@.last().contents@.len() == 0,
            new_store.heads@.last().head_branches@.len() == 0,
        ensures
            new_store.wf(),
            branch_before_post(old_store, new_store, self, key, gap, Ok(b)),
    {
        let h = self.root as int;
        let count = new_store.heads@.len() as int;
        let old_nodes = old_store.heads@[h].contents@;
        let new_nodes = new_store.heads@[h].contents@;
        assert(new_nodes.len() == old_nodes.len());
        assert(new_store.contents(self) =~= old_store.contents(self)) by {
            if gap > 0 {
                assert forall|n: int| 0 <= n < new_nodes.len() implies new_nodes[n].value == old_nodes[n].value by {
                    if n != gap - 1 {
                        assert(new_nodes[n] == old_nodes[n]);
                    }
                }
            }
        }
        assert(new_store.contents(b) =~= Seq::<T>::empty());
        lemma_find_branch_push(old_store.gap_entries(self, gap), entry, key);
        assert(new_store.gap_entries(self, gap) == old_store.gap_entries(self, gap).push(entry));
        assert forall|k: Seq<char>, g: int| #[trigger] new_store.branch_at(b, k, g) is None by {
            if g == 0 {
                assert(new_store.gap_entries(b, g) =~= Seq::<(String, usize)>::empty());
            }
        }
        assert forall|k: Seq<char>, g: int|
            !(k == key && g == gap) implies #[trigger] new_store.branch_at(self, k, g)
                == old_store.branch_at(self, k, g) by {
            if 0 <= g <= old_nodes.len() {
                if g == gap {
                    lemma_find_branch_push(old_store.gap_entries(self, gap), entry, k);
                } else if g > 0 {
                    assert(new_nodes[g - 1] == old_nodes[g - 1]);
                }
            }
        }
        assert forall|o: BranchedList|
            #![trigger new_store.valid(o)]
            old_store.valid(o) && o != self implies {
                &&& new_store.valid(o)
                &&& new_store.contents(o) == old_store.contents(o)
                &&& forall|k: Seq<char>, g: int| #[trigger]
                    new_store.branch_at(o, k, g) == old_store.branch_at(o, k, g)
            } by {
            assert(new_store.heads@[o.root as int] == old_store.heads@[o.root as int]);
        }
        assert(new_store.wf()) by {
            assert forall|hh: int|
                #![trigger new_store.heads@[hh]]
                0 <= hh < count implies {
                    &&& entries_within(new_store.heads@[hh].head_branches@, hh, count)
                    &&& forall|n: int|
                        0 <= n < new_store.heads@[hh].contents@.len() ==> entries_within(
                            #[trigger] new_store.heads@[hh].contents@[n].branches@,
                            hh,
                            count,
                        )
                } by {
                if hh < count - 1 {
                    assert(old_store.heads@[hh] == old_store.heads@[hh]);
                    if hh == h {
                        assert forall|n: int| 0 <= n < new_nodes.len() implies entries_within(
                            #[trigger] new_nodes[n].branches@,
                            hh,
                            count,
                        ) by {
                            assert(entries_within(old_nodes[n].branches@, hh, count - 1));
                        }
                    }
                } else {
                    assert(new_store.heads@[hh].contents@.len() == 0);
                }
            }
        }
    }
}

} // verus!
