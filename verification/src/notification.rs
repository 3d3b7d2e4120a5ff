//! The notification store: one attention record per target, with read/unread tracking.
use vstd::prelude::*;
use vstd::string::*;

use crate::clock::now_millis;
use crate::select::{lemma_filter_selects, lemma_selects_same_predicate, selects};
use crate::text::str_eq;

verus! {

broadcast use vstd::seq_lib::group_seq_properties;

/// Where a notification points: a workspace, and optionally one surface in it.
#[derive(Debug, Clone, PartialEq, Eq, Hash)]
pub struct NotificationTarget {
    pub workspace_id: String,
    pub surface_id: Option<String>,
}

/// A stored notification.
#[derive(Debug, Clone, PartialEq, Eq)]
pub struct NotificationRecord {
    pub id: u64,
    pub target: NotificationTarget,
    pub title: String,
    pub body: String,
    pub created_at_millis: u128,
    pub read: bool,
}

/// A notification as it is submitted, before the store numbers and stamps it.
#[derive(Debug, Clone, PartialEq, Eq)]
pub struct NewNotification {
    pub target: NotificationTarget,
    pub title: String,
    pub body: String,
}

/// The notifications of the session, oldest first.
#[derive(Debug)]
pub struct NotificationStore {
    next_id: u64,
    notifications: Vec<NotificationRecord>,
}

impl View for NotificationTarget {
    type V = (Seq<char>, Option<Seq<char>>);

    open spec fn view(&self) -> (Seq<char>, Option<Seq<char>>) {
        (
            self.workspace_id@,
            match self.surface_id {
                Some(s) => Some(s@),
                None => None,
            },
        )
    }
}

/// Whether a record belongs to workspace `w`.
pub open spec fn in_workspace(rec: NotificationRecord, w: Seq<char>) -> bool {
    rec.target.workspace_id@ == w
}

/// Whether a record belongs to workspace `w` and has not been read.
pub open spec fn unread_in_workspace(rec: NotificationRecord, w: Seq<char>) -> bool {
    !rec.read && in_workspace(rec, w)
}

/// The position of the newest record of workspace `w` (only unread ones when
/// `unread_only`), if there is one.
pub open spec fn latest_index(s: Seq<NotificationRecord>, w: Seq<char>, unread_only: bool) -> Option<int>
    decreases s.len(),
{
    if s.len() == 0 {
        None
    } else if in_workspace(s.last(), w) && (!unread_only || !s.last().read) {
        Some(s.len() - 1)
    } else {
        latest_index(s.drop_last(), w, unread_only)
    }
}

/// The records that are unread and belong to workspace `w`.
pub open spec fn unread_of(s: Seq<NotificationRecord>, w: Seq<char>) -> Seq<NotificationRecord> {
    s.filter(|r: NotificationRecord| unread_in_workspace(r, w))
}

/// Whether a record's target differs from `t`.
pub open spec fn target_differs(t: (Seq<char>, Option<Seq<char>>)) -> spec_fn(NotificationRecord) -> bool {
    |r: NotificationRecord| r.target@ != t
}

/// The records whose target differs from `t`.
pub open spec fn other_targets(s: Seq<NotificationRecord>, t: (Seq<char>, Option<Seq<char>>)) -> Seq<
    NotificationRecord,
> {
    s.filter(target_differs(t))
}

/// Ids grow strictly from the oldest record to the newest.
pub open spec fn ids_increasing(s: Seq<NotificationRecord>) -> bool {
    forall|i: int, j: int| 0 <= i < j < s.len() ==> s[i].id < s[j].id
}

/// No two records share a target.
pub open spec fn targets_distinct(s: Seq<NotificationRecord>) -> bool {
    forall|i: int, j: int| 0 <= i < j < s.len() ==> s[i].target@ != s[j].target@
}

/// Every id in use is below `next_id`.
pub open spec fn ids_below(s: Seq<NotificationRecord>, next_id: u64) -> bool {
    forall|i: int| 0 <= i < s.len() ==> s[i].id < next_id
}

/// `rec` with its `read` flag set.
pub open spec fn marked_read(rec: NotificationRecord) -> NotificationRecord {
    NotificationRecord { read: true, ..rec }
}

impl NotificationTarget {
    /// A copy with the same contents.
    pub fn duplicate(&self) -> (r: Self)
        ensures
            r == *self,
    {
        let surface_id = match &self.surface_id {
            Some(s) => Some(s.clone()),
            None => None,
        };
        NotificationTarget { workspace_id: self.workspace_id.clone(), surface_id }
    }

    /// Whether two targets name the same workspace and surface.
    pub fn same_as(&self, other: &Self) -> (r: bool)
        ensures
            r == (self@ == other@),
    {
        if !str_eq(self.workspace_id.as_str(), other.workspace_id.as_str()) {
            return false;
        }
        match (&self.surface_id, &other.surface_id) {
            (Some(a), Some(b)) => str_eq(a.as_str(), b.as_str()),
            (None, None) => true,
            _ => false,
        }
    }
}

impl NotificationRecord {
    /// A copy with the same contents.
    pub fn duplicate(&self) -> (r: Self)
        ensures
            r == *self,
    {
        NotificationRecord {
            id: self.id,
            target: self.target.duplicate(),
            title: self.title.clone(),
            body: self.body.clone(),
            created_at_millis: self.created_at_millis,
            read: self.read,
        }
    }
}

proof fn lemma_filter_step(s: Seq<NotificationRecord>, p: spec_fn(NotificationRecord) -> bool, i: int)
    requires
        0 <= i < s.len(),
    ensures
        s.take(i + 1).filter(p) == if p(s[i]) {
            s.take(i).filter(p).push(s[i])
        } else {
            s.take(i).filter(p)
        },
{
    reveal(Seq::filter);
    assert(s.take(i + 1).drop_last() =~= s.take(i));
}


/// Inserting a notification drops every older record of the same target and keeps every
/// record of another target: after an insert, a target has exactly one record.
pub proof fn lemma_insert_replaces_target(s: Seq<NotificationRecord>, r: NotificationRecord)
    ensures
        ({
            let after = other_targets(s, r.target@).push(r);
            &&& after.last() == r
            &&& forall|i: int| 0 <= i < after.len() - 1 ==> #[trigger] after[i].target@ != r.target@
            &&& forall|i: int|
                0 <= i < s.len() && s[i].target@ != r.target@ ==> after.contains(#[trigger] s[i])
        }),
{
    let p = target_differs(r.target@);
    let f = s.filter(p);
    let after = f.push(r);
    assert forall|i: int| 0 <= i < after.len() - 1 implies #[trigger] after[i].target@ != r.target@ by {
        s.lemma_filter_pred(p, i);
        assert(after[i] == f[i]);
    }
    assert forall|i: int| 0 <= i < s.len() && s[i].target@ != r.target@ implies after.contains(#[trigger] s[i]) by {
        s.lemma_filter_contains(p, i);
        let k = choose|k: int| 0 <= k < f.len() && f[k] == s[i];
        assert(after[k] == s[i]);
    }
}

/// Right after an insert, the new record is both the latest and the latest unread record
/// of its workspace.
pub proof fn lemma_insert_is_latest(s: Seq<NotificationRecord>, r: NotificationRecord)
    requires
        !r.read,
    ensures
        ({
            let after = other_targets(s, r.target@).push(r);
            &&& latest_index(after, r.target.workspace_id@, false) == Some(after.len() - 1)
            &&& latest_index(after, r.target.workspace_id@, true) == Some(after.len() - 1)
        }),
{
}



/// The latest-record search finds the record of greatest position among those whose
/// workspace is exactly `w` (and that are unread, when `unread_only`), and finds nothing
/// only when no record qualifies.
pub proof fn lemma_latest_index_is_newest_match(s: Seq<NotificationRecord>, w: Seq<char>, unread_only: bool)
    ensures
        match latest_index(s, w, unread_only) {
            None => forall|i: int|
                0 <= i < s.len() ==> !(#[trigger] s[i].target.workspace_id@ == w && (!unread_only || !s[i].read)),
            Some(i) => {
                &&& 0 <= i < s.len()
                &&& s[i].target.workspace_id@ == w
                &&& !unread_only || !s[i].read
                &&& forall|j: int|
                    i < j < s.len() ==> !(#[trigger] s[j].target.workspace_id@ == w && (!unread_only || !s[j].read))
            },
        },
    decreases s.len(),
{
    if s.len() > 0 {
        let s2 = s.drop_last();
        lemma_latest_index_is_newest_match(s2, w, unread_only);
        assert forall|i: int| 0 <= i < s2.len() implies s2[i] == s[i] by {}
    }
}

/// The records counted as unread for workspace `w` are, in order, exactly the unread
/// records whose workspace is `w`: none of another workspace, none read, none left out.
pub proof fn lemma_unread_of_is_exact(s: Seq<NotificationRecord>, w: Seq<char>) -> (idx: Seq<int>)
    ensures
        selects(idx, s, |r: NotificationRecord| !r.read && r.target.workspace_id@ == w),
        idx.len() == unread_of(s, w).len(),
        forall|k: int| 0 <= k < idx.len() ==> unread_of(s, w)[k] == s[#[trigger] idx[k]],
{
    let p = |r: NotificationRecord| unread_in_workspace(r, w);
    let idx = lemma_filter_selects(s, p);
    lemma_selects_same_predicate(idx, s, p, |r: NotificationRecord| !r.read && r.target.workspace_id@ == w);
    idx
}

/// An insert adds one unread record to its workspace's count, after dropping the record it
/// replaces; other workspaces lose at most that replaced record.
pub proof fn lemma_insert_unread_count(s: Seq<NotificationRecord>, r: NotificationRecord, w: Seq<char>)
    requires
        !r.read,
    ensures
        unread_of(other_targets(s, r.target@).push(r), w).len() == unread_of(other_targets(s, r.target@), w).len()
            + if in_workspace(r, w) {
            1int
        } else {
            0int
        },
{
    reveal(Seq::filter);
    let f = other_targets(s, r.target@);
    assert(f.push(r).drop_last() =~= f);
}

/// Marking a record read lowers the unread count of its workspace by one if it was unread
/// there, and leaves every other workspace's count unchanged.
pub proof fn lemma_mark_read_unread_count(s: Seq<NotificationRecord>, i: int, w: Seq<char>)
    requires
        0 <= i < s.len(),
    ensures
        unread_of(s.update(i, marked_read(s[i])), w).len() == unread_of(s, w).len() - if unread_in_workspace(
            s[i],
            w,
        ) {
            1int
        } else {
            0int
        },
{
    let p = |rec: NotificationRecord| unread_in_workspace(rec, w);
    let a = s.take(i);
    let b = s.skip(i + 1);
    let x = s[i];
    let y = marked_read(x);
    let t = s.update(i, y);
    assert(s =~= a + seq![x] + b);
    assert(t =~= a + seq![y] + b);
    Seq::filter_distributes_over_add(a + seq![x], b, p);
    Seq::filter_distributes_over_add(a, seq![x], p);
    Seq::filter_distributes_over_add(a + seq![y], b, p);
    Seq::filter_distributes_over_add(a, seq![y], p);
    reveal(Seq::filter);
    assert(seq![x].drop_last() =~= Seq::<NotificationRecord>::empty());
    assert(seq![y].drop_last() =~= Seq::<NotificationRecord>::empty());
    assert(seq![y].filter(p) =~= Seq::<NotificationRecord>::empty());
    assert(seq![x].filter(p).len() == if p(x) { 1int } else { 0int });
}

impl Default for NotificationStore {
    /// An empty store whose first notification will be numbered 0.
    fn default() -> (r: Self)
        ensures
            r.wf(),
            r.records() == Seq::<NotificationRecord>::empty(),
            r.spec_next_id() == 0,
    {
        NotificationStore { next_id: 0, notifications: Vec::new() }
    }
}

impl NotificationStore {
    /// The stored records, oldest first.
    pub closed spec fn records(&self) -> Seq<NotificationRecord> {
        self.notifications@
    }

    /// The id that the next insert will give.
    pub closed spec fn spec_next_id(&self) -> u64 {
        self.next_id
    }

    /// The store's invariant: ids grow with age and stay below the next id, and each
    /// target has at most one record.
    pub open spec fn wf(&self) -> bool {
        &&& ids_increasing(self.records())
        &&& ids_below(self.records(), self.spec_next_id())
        &&& targets_distinct(self.records())
    }

    /// Stores a notification stamped at `created_at_millis`, replacing any record with the
    /// same target, and returns the stored record.
    pub fn insert_at(&mut self, notification: NewNotification, created_at_millis: u128) -> (r: NotificationRecord)
        requires
            old(self).wf(),
            old(self).spec_next_id() < u64::MAX,
        ensures
            final(self).wf(),
            r.id == old(self).spec_next_id(),
            r.target == notification.target,
            r.title == notification.title,
            r.body == notification.body,
            r.created_at_millis == created_at_millis,
            !r.read,
            final(self).spec_next_id() == old(self).spec_next_id() + 1,
            final(self).records() == other_targets(old(self).records(), notification.target@).push(r),
    {
        let ghost old_records = self.notifications@;
        let ghost t = notification.target@;
        let ghost p = target_differs(t);
        let mut kept: Vec<NotificationRecord> = Vec::new();
        let n = self.notifications.len();
        let mut i: usize = 0;
        while i < n
            invariant
                n == old_records.len(),
                self.notifications@ == old_records,
                ids_increasing(old_records),
                targets_distinct(old_records),
                ids_below(old_records, self.next_id),
                i <= n,
                t == notification.target@,
                p == target_differs(t),
                kept@ == old_records.take(i as int).filter(p),
                forall|k: int| 0 <= k < kept.len() ==> exists|j: int| 0 <= j < i && #[trigger] kept@[k] == old_records[j],
                forall|k: int| 0 <= k < kept.len() ==> #[trigger] kept@[k].target@ != t,
                ids_increasing(kept@),
                targets_distinct(kept@),
            decreases n - i,
        {
            proof {
                lemma_filter_step(old_records, p, i as int);
            }
            if !self.notifications[i].target.same_as(&notification.target) {
                let ghost before = kept@;
                kept.push(self.notifications[i].duplicate());
                proof {
                    assert forall|k: int| 0 <= k < before.len() implies before[k].id < old_records[i as int].id
                        && before[k].target@ != old_records[i as int].target@ by {
                        let j = choose|j: int| 0 <= j < i && #[trigger] before[k] == old_records[j];
                    }
                    assert forall|k: int| 0 <= k < kept.len() implies exists|j: int| 0 <= j < i + 1 && #[trigger] kept@[k] == old_records[j] by {
                        if k == before.len() {
                            assert(kept@[k] == old_records[i as int]);
                        } else {
                            assert(kept@[k] == before[k]);
                        }
                    }
                }
            }
            i = i + 1;
        }
        assert(old_records.take(n as int) =~= old_records);
        let record = NotificationRecord {
            id: self.next_id,
            target: notification.target,
            title: notification.title,
            body: notification.body,
            created_at_millis,
            read: false,
        };
        let ghost before = kept@;
        kept.push(record.duplicate());
        proof {
            assert forall|k: int| 0 <= k < before.len() implies before[k].id < self.next_id by {
                let j = choose|j: int| 0 <= j < i && #[trigger] before[k] == old_records[j];
            }
        }
        self.notifications = kept;
        self.next_id = self.next_id + 1;
        record
    }


    /// The stored records, oldest first.
    pub fn list(&self) -> (r: &[NotificationRecord])
        ensures
            r@ == self.records(),
    {
        self.notifications.as_slice()
    }

    fn latest_matching(&self, workspace_id: &str, unread_only: bool) -> (r: Option<&NotificationRecord>)
        ensures
            match latest_index(self.records(), workspace_id@, unread_only) {
                None => r is None,
                Some(i) => r matches Some(rec) && *rec == self.records()[i],
            },
    {
        let ghost s = self.notifications@;
        let mut i: usize = self.notifications.len();
        assert(s.take(i as int) =~= s);
        while i > 0
            invariant
                s == self.notifications@,
                i <= s.len(),
                latest_index(s, workspace_id@, unread_only) == latest_index(
                    s.take(i as int),
                    workspace_id@,
                    unread_only,
                ),
            decreases i,
        {
            let rec = &self.notifications[i - 1];
            assert(s.take(i as int).drop_last() =~= s.take(i - 1));
            assert(s.take(i as int).last() == s[i - 1]);
            if str_eq(rec.target.workspace_id.as_str(), workspace_id) && (!unread_only || !rec.read) {
                return Some(rec);
            }
            i = i - 1;
        }
        assert(s.take(0) =~= Seq::<NotificationRecord>::empty());
        None
    }

    /// The newest record of workspace `workspace_id`, if any.
    pub fn latest_for_workspace(&self, workspace_id: &str) -> (r: Option<&NotificationRecord>)
        ensures
            match latest_index(self.records(), workspace_id@, false) {
                None => r is None,
                Some(i) => r matches Some(rec) && *rec == self.records()[i],
            },
            r is None <==> forall|i: int|
                0 <= i < self.records().len() ==> !(#[trigger] self.records()[i].target.workspace_id@
                    == workspace_id@),
            r matches Some(rec) ==> exists|i: int|
                0 <= i < self.records().len() && *rec == self.records()[i] && #[trigger] self.records()[i].target.workspace_id@
                    == workspace_id@ && forall|j: int|
                    i < j < self.records().len() ==> !(#[trigger] self.records()[j].target.workspace_id@
                        == workspace_id@),
    {
        proof {
            lemma_latest_index_is_newest_match(self.records(), workspace_id@, false);
        }
        self.latest_matching(workspace_id, false)
    }

    /// The newest unread record of workspace `workspace_id`, if any.
    pub fn latest_unread_for_workspace(&self, workspace_id: &str) -> (r: Option<&NotificationRecord>)
        ensures
            match latest_index(self.records(), workspace_id@, true) {
                None => r is None,
                Some(i) => r matches Some(rec) && *rec == self.records()[i],
            },
            r is None <==> forall|i: int|
                0 <= i < self.records().len() ==> !(!self.records()[i].read && #[trigger] self.records()[i].target.workspace_id@
                    == workspace_id@),
            r matches Some(rec) ==> exists|i: int|
                0 <= i < self.records().len() && *rec == self.records()[i] && !self.records()[i].read && #[trigger] self.records()[i].target.workspace_id@
                    == workspace_id@ && forall|j: int|
                    i < j < self.records().len() ==> !(!self.records()[j].read && #[trigger] self.records()[j].target.workspace_id@
                        == workspace_id@),
    {
        proof {
            lemma_latest_index_is_newest_match(self.records(), workspace_id@, true);
        }
        self.latest_matching(workspace_id, true)
    }

    /// The newest `limit` records (all of them when there are fewer), newest first.
    pub fn recent(&self, limit: usize) -> (r: Vec<&NotificationRecord>)
        ensures
            r.len() == if limit < self.records().len() { limit as int } else { self.records().len() as int },
            forall|k: int| 0 <= k < r.len() ==> *r@[k] == self.records()[self.records().len() - 1 - k],
    {
        let n = self.notifications.len();
        let mut out: Vec<&NotificationRecord> = Vec::new();
        let mut k: usize = 0;
        while k < n && k < limit
            invariant
                n == self.notifications@.len(),
                k <= n,
                k <= limit,
                out.len() == k,
                forall|j: int| 0 <= j < k ==> *out@[j] == self.notifications@[n - 1 - j],
            decreases n - k,
        {
            out.push(&self.notifications[n - 1 - k]);
            k = k + 1;
        }
        out
    }

    /// How many unread records workspace `workspace_id` has.
    pub fn unread_count_for_workspace(&self, workspace_id: &str) -> (r: usize)
        ensures
            r == unread_of(self.records(), workspace_id@).len(),
            exists|idx: Seq<int>|
                #![trigger idx.len()]
                selects(idx, self.records(), |rec: NotificationRecord| !rec.read && rec.target.workspace_id@ == workspace_id@)
                    && r == idx.len(),
    {
        proof {
            let idx = lemma_unread_of_is_exact(self.records(), workspace_id@);
        }
        let ghost s = self.notifications@;
        let ghost w = workspace_id@;
        let ghost p = |rec: NotificationRecord| unread_in_workspace(rec, w);
        let n = self.notifications.len();
        let mut count: usize = 0;
        let mut i: usize = 0;
        while i < n
            invariant
                s == self.notifications@,
                n == s.len(),
                i <= n,
                w == workspace_id@,
                p == (|rec: NotificationRecord| unread_in_workspace(rec, w)),
                count == s.take(i as int).filter(p).len(),
                count <= i,
            decreases n - i,
        {
            proof {
                lemma_filter_step(s, p, i as int);
            }
            let rec = &self.notifications[i];
            if !rec.read && str_eq(rec.target.workspace_id.as_str(), workspace_id) {
                count = count + 1;
            }
            i = i + 1;
        }
        assert(s.take(n as int) =~= s);
        count
    }

    /// Marks the record numbered `id` read and returns it; `None` when no record has that id.
    pub fn mark_read(&mut self, id: u64) -> (r: Option<&NotificationRecord>)
        requires
            old(self).wf(),
        ensures
            final(self).wf(),
            final(self).spec_next_id() == old(self).spec_next_id(),
            match r {
                None => {
                    &&& forall|i: int| 0 <= i < old(self).records().len() ==> old(self).records()[i].id != id
                    &&& final(self).records() == old(self).records()
                },
                Some(rec) => exists|i: int|
                    0 <= i < old(self).records().len() && old(self).records()[i].id == id
                        && final(self).records() == old(self).records().update(i, marked_read(old(self).records()[i]))
                        && *rec == final(self).records()[i],
            },
    {
        let n = self.notifications.len();
        let mut i: usize = 0;
        while i < n
            invariant
                n == self.notifications@.len(),
                i <= n,
                forall|j: int| 0 <= j < i ==> self.notifications@[j].id != id,
            ensures
                i <= n,
                forall|j: int| 0 <= j < i ==> self.notifications@[j].id != id,
                i < n ==> self.notifications@[i as int].id == id,
            decreases n - i,
        {
            if self.notifications[i].id == id {
                break;
            }
            i = i + 1;
        }
        if i == n {
            return None;
        }
        let ghost old_records = self.notifications@;
        self.notifications[i].read = true;
        assert(self.notifications@ =~= old_records.update(i as int, marked_read(old_records[i as int])));
        let r = &self.notifications[i];
        assert(self.notifications@[i as int] == marked_read(old_records[i as int]));
        Some(r)
    }

    /// Stores a notification stamped with the current time, replacing any record with the
    /// same target, and returns the stored record.
    pub fn insert(&mut self, notification: NewNotification) -> (r: NotificationRecord)
        requires
            old(self).wf(),
            old(self).spec_next_id() < u64::MAX,
        ensures
            final(self).wf(),
            r.id == old(self).spec_next_id(),
            r.target == notification.target,
            r.title == notification.title,
            r.body == notification.body,
            r.created_at_millis <= u64::MAX * 1000 + 999,
            !r.read,
            final(self).spec_next_id() == old(self).spec_next_id() + 1,
            final(self).records() == other_targets(old(self).records(), notification.target@).push(r),
    {
        let now = now_millis();
        self.insert_at(notification, now)
    }
}

} // verus!
