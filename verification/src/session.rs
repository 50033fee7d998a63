//! Scan sessions: the results of one scan and the cursor up to which they
//! have been handed out, one session for each category.

use vstd::prelude::*;
use std::collections::HashMap;
use crate::models::{resource_views, ResourceItem, ResourceItemView, ScanProgress};

verus! {

broadcast use vstd::std_specs::hash::group_hash_axioms;

/// What a scan session holds: the resources that its scan gathered, how many
/// of them have been handed out, and whether the last of them has been.
pub struct SessionModel {
    pub category_id: i64,
    pub resources: Seq<ResourceItemView>,
    pub cursor: int,
    pub complete: bool,
}

/// Where the batch that begins at `cursor` ends.
pub open spec fn batch_end(len: int, cursor: int, batch_size: int) -> int {
    if cursor + batch_size < len {
        cursor + batch_size
    } else {
        len
    }
}

/// The session after a batch of at most `batch_size` resources was handed out.
pub open spec fn advanced(s: SessionModel, batch_size: int) -> SessionModel {
    let end = batch_end(s.resources.len() as int, s.cursor, batch_size);
    SessionModel {
        category_id: s.category_id,
        resources: s.resources,
        cursor: end,
        complete: s.complete || end >= s.resources.len(),
    }
}

/// The batch that is handed out next.
pub open spec fn next_batch_of(s: SessionModel, batch_size: int) -> Seq<ResourceItemView> {
    s.resources.subrange(s.cursor, batch_end(s.resources.len() as int, s.cursor, batch_size))
}

/// A session as a new scan of `category_id` leaves it.
pub open spec fn fresh_session(category_id: i64, resources: Seq<ResourceItemView>) -> SessionModel {
    SessionModel { category_id, resources, cursor: 0, complete: false }
}

/// The results of one scan, and how far they have been handed out.
pub struct ScanState {
    all_resources: Vec<ResourceItem>,
    current_index: usize,
    is_complete: bool,
    category_id: i64,
}

impl View for ScanState {
    type V = SessionModel;

    closed spec fn view(&self) -> SessionModel {
        SessionModel {
            category_id: self.category_id,
            resources: resource_views(self.all_resources@),
            cursor: self.current_index as int,
            complete: self.is_complete,
        }
    }
}

impl ScanState {
    /// The cursor lies within the results.
    pub closed spec fn wf(&self) -> bool {
        self.current_index <= self.all_resources.len()
    }

    pub proof fn lemma_wf(&self)
        requires
            self.wf(),
        ensures
            0 <= self@.cursor <= self@.resources.len() <= usize::MAX,
    {
    }

    pub fn new() -> (s: Self)
        ensures
            s.wf(),
            s@ == fresh_session(0, Seq::empty()),
    {
        let s = ScanState { all_resources: Vec::new(), current_index: 0, is_complete: false, category_id: 0 };
        assert(resource_views(s.all_resources@) =~= Seq::<ResourceItemView>::empty());
        s
    }

    /// Empties the session for a new scan of `category_id`.
    pub fn reset(&mut self, category_id: i64)
        ensures
            final(self).wf(),
            final(self)@ == fresh_session(category_id, Seq::empty()),
    {
        self.all_resources.clear();
        assert(resource_views(self.all_resources@) =~= Seq::<ResourceItemView>::empty());
        self.current_index = 0;
        self.is_complete = false;
        self.category_id = category_id;
    }

    /// Appends what one walk found.
    pub fn add_resources(&mut self, resources: Vec<ResourceItem>)
        requires
            old(self).wf(),
        ensures
            final(self).wf(),
            final(self)@ == (SessionModel {
                resources: old(self)@.resources + resource_views(resources@),
                ..old(self)@
            }),
    {
        let ghost added = resources@;
        let mut resources = resources;
        self.all_resources.append(&mut resources);
        assert(resource_views(self.all_resources@) =~= resource_views(old(self).all_resources@) + resource_views(added));
    }

    /// Hands out the next batch, of at most `batch_size` resources, and moves
    /// the cursor past it. The session is complete once the cursor has passed
    /// the last resource.
    pub fn get_next_batch(&mut self, batch_size: usize) -> (batch: Vec<ResourceItem>)
        requires
            old(self).wf(),
        ensures
            final(self).wf(),
            resource_views(batch@) == next_batch_of(old(self)@, batch_size as int),
            final(self)@ == advanced(old(self)@, batch_size as int),
    {
        let len: usize = self.all_resources.len();
        let end: usize = if batch_size < len - self.current_index {
            self.current_index + batch_size
        } else {
            len
        };
        let mut batch: Vec<ResourceItem> = Vec::new();
        let mut i: usize = self.current_index;
        while i < end
            invariant
                self.current_index <= i <= end <= self.all_resources.len(),
                batch@ == self.all_resources@.subrange(self.current_index as int, i as int),
            decreases end - i,
        {
            batch.push(self.all_resources[i].clone());
            i = i + 1;
            assert(self.all_resources@.subrange(self.current_index as int, i as int) =~= self.all_resources@.subrange(
                self.current_index as int,
                i - 1,
            ).push(self.all_resources@[i - 1]));
        }
        assert(resource_views(batch@) =~= resource_views(self.all_resources@).subrange(
            self.current_index as int,
            end as int,
        ));
        self.current_index = end;
        if self.current_index >= len {
            self.is_complete = true;
        }
        batch
    }

    /// How many resources the scan gathered.
    pub fn get_total_count(&self) -> (n: i64)
        ensures
            n == self@.resources.len() as i64,
    {
        #[verifier::truncate]
        (self.all_resources.len() as i64)
    }

    /// How many resources have been handed out.
    pub fn get_scanned_count(&self) -> (n: i64)
        ensures
            n == self@.cursor as usize as i64,
    {
        #[verifier::truncate]
        (self.current_index as i64)
    }

    /// Whether the last resource has been handed out.
    pub fn is_complete(&self) -> (b: bool)
        ensures
            b == self@.complete,
    {
        self.is_complete
    }

    /// The category whose scan this is.
    pub fn category_id(&self) -> (id: i64)
        ensures
            id == self@.category_id,
    {
        self.category_id
    }
}

/// The sessions of a store, by category.
pub open spec fn session_models(sessions: Map<i64, ScanState>) -> Map<i64, SessionModel> {
    sessions.map_values(|s: ScanState| s@)
}

/// A request for a batch of `category_id` starts a new scan when the category
/// has no session or its session is complete.
pub open spec fn needs_gather(sessions: Map<i64, SessionModel>, category_id: i64) -> bool {
    !sessions.dom().contains(category_id) || sessions[category_id].complete
}

/// The session that a request for a batch of `category_id` draws from:
/// a fresh one over `gathered` where a new scan starts, else the one in the store.
pub open spec fn session_for_request(
    sessions: Map<i64, SessionModel>,
    category_id: i64,
    gathered: Seq<ResourceItemView>,
) -> SessionModel {
    if needs_gather(sessions, category_id) {
        fresh_session(category_id, gathered)
    } else {
        sessions[category_id]
    }
}

/// The sessions after a request for a batch of `category_id`; `gathered` is
/// what a new scan of the category finds.
pub open spec fn sessions_after_request(
    sessions: Map<i64, SessionModel>,
    category_id: i64,
    gathered: Seq<ResourceItemView>,
    batch_size: int,
) -> Map<i64, SessionModel> {
    sessions.insert(category_id, advanced(session_for_request(sessions, category_id, gathered), batch_size))
}

/// The batch that a request for a batch of `category_id` is answered with.
pub open spec fn batch_for_request(
    sessions: Map<i64, SessionModel>,
    category_id: i64,
    gathered: Seq<ResourceItemView>,
    batch_size: int,
) -> Seq<ResourceItemView> {
    next_batch_of(session_for_request(sessions, category_id, gathered), batch_size)
}

/// The batches that a session hands out from `cursor` on, until it is complete.
pub open spec fn batches_from(resources: Seq<ResourceItemView>, cursor: int, batch_size: int) -> Seq<Seq<ResourceItemView>>
    decreases resources.len() - cursor,
{
    let end = batch_end(resources.len() as int, cursor, batch_size);
    let batch = resources.subrange(cursor, end);
    if batch_size <= 0 || cursor < 0 || end >= resources.len() {
        seq![batch]
    } else {
        seq![batch] + batches_from(resources, end, batch_size)
    }
}

/// The batches laid end to end.
pub open spec fn concat_all(batches: Seq<Seq<ResourceItemView>>) -> Seq<ResourceItemView>
    decreases batches.len(),
{
    if batches.len() == 0 {
        Seq::empty()
    } else {
        batches[0] + concat_all(batches.drop_first())
    }
}

/// The sizes of the batches, added up.
pub open spec fn total_len(batches: Seq<Seq<ResourceItemView>>) -> int
    decreases batches.len(),
{
    if batches.len() == 0 {
        0
    } else {
        batches[0].len() + total_len(batches.drop_first())
    }
}

/// The batches that `n` requests in a row for a batch of `category_id` are
/// answered with; `gathered` is what a new scan of the category finds.
pub open spec fn request_batches(
    sessions: Map<i64, SessionModel>,
    category_id: i64,
    gathered: Seq<ResourceItemView>,
    batch_size: int,
    n: nat,
) -> Seq<Seq<ResourceItemView>>
    decreases n,
{
    if n == 0 {
        Seq::empty()
    } else {
        seq![batch_for_request(sessions, category_id, gathered, batch_size)] + request_batches(
            sessions_after_request(sessions, category_id, gathered, batch_size),
            category_id,
            gathered,
            batch_size,
            (n - 1) as nat,
        )
    }
}

/// The sessions after `n` requests in a row for a batch of `category_id`.
pub open spec fn sessions_after_requests(
    sessions: Map<i64, SessionModel>,
    category_id: i64,
    gathered: Seq<ResourceItemView>,
    batch_size: int,
    n: nat,
) -> Map<i64, SessionModel>
    decreases n,
{
    if n == 0 {
        sessions
    } else {
        sessions_after_requests(
            sessions_after_request(sessions, category_id, gathered, batch_size),
            category_id,
            gathered,
            batch_size,
            (n - 1) as nat,
        )
    }
}

/// The batches from `cursor` on, laid end to end, are the resources from
/// `cursor` on, and their sizes add up to the number of those resources.
pub proof fn lemma_batches_cover(resources: Seq<ResourceItemView>, cursor: int, batch_size: int)
    requires
        0 <= cursor <= resources.len(),
        batch_size > 0,
    ensures
        concat_all(batches_from(resources, cursor, batch_size)) == resources.skip(cursor),
        total_len(batches_from(resources, cursor, batch_size)) == resources.len() - cursor,
    decreases resources.len() - cursor,
{
    let end = batch_end(resources.len() as int, cursor, batch_size);
    let batch = resources.subrange(cursor, end);
    let all = batches_from(resources, cursor, batch_size);
    assert(concat_all(Seq::<Seq<ResourceItemView>>::empty()) =~= Seq::<ResourceItemView>::empty());
    assert(total_len(Seq::<Seq<ResourceItemView>>::empty()) == 0);
    assert(all[0] == batch);
    if end >= resources.len() {
        assert(all.drop_first() =~= Seq::<Seq<ResourceItemView>>::empty());
        assert(concat_all(all) =~= resources.skip(cursor));
        assert(total_len(all) == batch.len() + total_len(all.drop_first()));
    } else {
        lemma_batches_cover(resources, end, batch_size);
        assert(all.drop_first() =~= batches_from(resources, end, batch_size));
        assert(concat_all(all) =~= resources.skip(cursor));
        assert(total_len(all) == batch.len() + total_len(all.drop_first()));
    }
}

proof fn lemma_requests_follow_batches(
    sessions: Map<i64, SessionModel>,
    category_id: i64,
    gathered: Seq<ResourceItemView>,
    batch_size: int,
)
    requires
        batch_size > 0,
        !needs_gather(sessions, category_id),
        0 <= sessions[category_id].cursor <= sessions[category_id].resources.len(),
    ensures
        ({
            let s = sessions[category_id];
            let batches = batches_from(s.resources, s.cursor, batch_size);
            &&& request_batches(sessions, category_id, gathered, batch_size, batches.len()) == batches
            &&& sessions_after_requests(sessions, category_id, gathered, batch_size, batches.len())[category_id].complete
            &&& forall|n: nat|
                0 < n < batches.len() ==> !(#[trigger] sessions_after_requests(
                    sessions,
                    category_id,
                    gathered,
                    batch_size,
                    n,
                ))[category_id].complete
        }),
    decreases sessions[category_id].resources.len() - sessions[category_id].cursor,
{
    let s = sessions[category_id];
    let end = batch_end(s.resources.len() as int, s.cursor, batch_size);
    let batches = batches_from(s.resources, s.cursor, batch_size);
    let after = sessions_after_request(sessions, category_id, gathered, batch_size);
    assert(after[category_id] == advanced(s, batch_size));
    assert(request_batches(after, category_id, gathered, batch_size, 0) =~= Seq::<Seq<ResourceItemView>>::empty());
    if end >= s.resources.len() {
        assert(batches.len() == 1);
        assert(request_batches(sessions, category_id, gathered, batch_size, 1) =~= batches);
        assert(sessions_after_requests(after, category_id, gathered, batch_size, 0) == after);
    } else {
        lemma_requests_follow_batches(after, category_id, gathered, batch_size);
        let rest = batches_from(s.resources, end, batch_size);
        assert(batches =~= seq![s.resources.subrange(s.cursor, end)] + rest);
        assert(request_batches(sessions, category_id, gathered, batch_size, batches.len()) =~= batches);
        assert forall|n: nat| 0 < n < batches.len() implies !(#[trigger] sessions_after_requests(
            sessions,
            category_id,
            gathered,
            batch_size,
            n,
        ))[category_id].complete by {
            if n == 1 {
                assert(sessions_after_requests(after, category_id, gathered, batch_size, 0) == after);
            } else {
                assert(sessions_after_requests(sessions, category_id, gathered, batch_size, n)
                    == sessions_after_requests(after, category_id, gathered, batch_size, (n - 1) as nat));
            }
        }
    }
}

/// Batches and the whole are the same resources. Where a request for a batch
/// of a category starts a new scan, which gathers `gathered`, this request and
/// those that follow it for the category are answered with the batches of
/// `gathered`, in order, and the last of these requests is the first to leave
/// the session complete. Laid end to end the batches are `gathered`, and their
/// sizes add up to its length.
pub proof fn lemma_batches_equal_scan(
    sessions: Map<i64, SessionModel>,
    category_id: i64,
    gathered: Seq<ResourceItemView>,
    batch_size: int,
)
    requires
        batch_size > 0,
        needs_gather(sessions, category_id),
    ensures
        ({
            let n = batches_from(gathered, 0, batch_size).len();
            let batches = request_batches(sessions, category_id, gathered, batch_size, n);
            &&& n >= 1
            &&& batches == batches_from(gathered, 0, batch_size)
            &&& concat_all(batches) == gathered
            &&& total_len(batches) == gathered.len()
            &&& sessions_after_requests(sessions, category_id, gathered, batch_size, n)[category_id].complete
            &&& forall|k: nat|
                0 < k < n ==> !(#[trigger] sessions_after_requests(sessions, category_id, gathered, batch_size, k))[category_id].complete
        }),
{
    let started = sessions.insert(category_id, fresh_session(category_id, gathered));
    let n = batches_from(gathered, 0, batch_size).len();
    lemma_requests_follow_batches(started, category_id, gathered, batch_size);
    lemma_batches_cover(gathered, 0, batch_size);
    assert(gathered.skip(0) =~= gathered);
    assert(sessions_after_request(started, category_id, gathered, batch_size) =~= sessions_after_request(
        sessions,
        category_id,
        gathered,
        batch_size,
    ));
    assert(request_batches(sessions, category_id, gathered, batch_size, n) == request_batches(
        started,
        category_id,
        gathered,
        batch_size,
        n,
    ));
    assert forall|k: nat| 0 < k <= n implies #[trigger] sessions_after_requests(sessions, category_id, gathered, batch_size, k)
        == sessions_after_requests(started, category_id, gathered, batch_size, k) by {
    }
}

/// A session that is used up is not gone on with. After the session of
/// category `a` is complete and a batch of another category `b` was asked
/// for, the next request for `a` starts a new scan: it is answered from what
/// that scan gathers, from its first resource on.
pub proof fn lemma_session_reset(
    sessions: Map<i64, SessionModel>,
    a: i64,
    b: i64,
    gathered_b: Seq<ResourceItemView>,
    batch_size_b: int,
    gathered_a: Seq<ResourceItemView>,
    batch_size: int,
)
    requires
        a != b,
        sessions.dom().contains(a),
        sessions[a].complete,
    ensures
        ({
            let between = sessions_after_request(sessions, b, gathered_b, batch_size_b);
            let after = sessions_after_request(between, a, gathered_a, batch_size);
            &&& needs_gather(between, a)
            &&& batch_for_request(between, a, gathered_a, batch_size) == next_batch_of(fresh_session(a, gathered_a), batch_size)
            &&& after[a] == advanced(fresh_session(a, gathered_a), batch_size)
            &&& after[a].resources == gathered_a
        }),
{
}

/// A session as a store keeps it for the category `id`: it is that
/// category's, its cursor lies within its resources, whose number can be
/// reported, and it is complete only with the cursor at the end.
pub open spec fn sound_session(s: SessionModel, id: i64) -> bool {
    &&& s.category_id == id
    &&& 0 <= s.cursor <= s.resources.len() <= i64::MAX
    &&& s.complete ==> s.cursor == s.resources.len()
}

/// The scan sessions in progress, one for each category at most.
pub struct SessionStore {
    sessions: HashMap<i64, ScanState>,
}

impl View for SessionStore {
    type V = Map<i64, SessionModel>;

    closed spec fn view(&self) -> Map<i64, SessionModel> {
        session_models(self.sessions@)
    }
}

impl SessionStore {
    /// Every session is well formed and filed under its own category.
    pub closed spec fn wf(&self) -> bool {
        forall|id: i64| #[trigger]
            self.sessions@.dom().contains(id) ==> {
                &&& self.sessions@[id].wf()
                &&& sound_session(self.sessions@[id]@, id)
            }
    }

    pub proof fn lemma_wf(&self, id: i64)
        requires
            self.wf(),
            self@.dom().contains(id),
        ensures
            sound_session(self@[id], id),
    {
        assert(self.sessions@.dom().contains(id));
        self.sessions@[id].lemma_wf();
    }

    pub fn new() -> (store: Self)
        ensures
            store.wf(),
            store@ == Map::<i64, SessionModel>::empty(),
    {
        let store = SessionStore { sessions: HashMap::new() };
        assert(store@ =~= Map::<i64, SessionModel>::empty());
        store
    }

    /// Whether a request for a batch of `category_id` starts a new scan.
    pub fn needs_gather(&self, category_id: i64) -> (b: bool)
        ensures
            b == needs_gather(self@, category_id),
    {
        match self.sessions.get(&category_id) {
            Some(session) => session.is_complete(),
            None => true,
        }
    }

    /// Replaces the session of `category_id` by a fresh one over `resources`.
    pub fn begin(&mut self, category_id: i64, resources: Vec<ResourceItem>)
        requires
            old(self).wf(),
            resources.len() <= i64::MAX,
        ensures
            final(self).wf(),
            final(self)@ == old(self)@.insert(category_id, fresh_session(category_id, resource_views(resources@))),
    {
        let ghost gathered = resource_views(resources@);
        let mut session = ScanState::new();
        session.reset(category_id);
        session.add_resources(resources);
        assert(session@.resources =~= gathered);
        proof {
            session.lemma_wf();
        }
        self.sessions.insert(category_id, session);
        assert(final(self)@ =~= old(self)@.insert(category_id, fresh_session(category_id, gathered)));
    }

    /// Drops the session of `category_id`, if there is one.
    pub fn remove(&mut self, category_id: i64)
        requires
            old(self).wf(),
        ensures
            final(self).wf(),
            final(self)@ == old(self)@.remove(category_id),
    {
        self.sessions.remove(&category_id);
        assert(final(self)@ =~= old(self)@.remove(category_id));
    }

    /// Hands out the next batch of the session of `category_id`, and reports
    /// how far the session has come. `None` where the category has no session.
    pub fn next_batch(&mut self, category_id: i64, batch_size: usize) -> (progress: Option<ScanProgress>)
        requires
            old(self).wf(),
        ensures
            final(self).wf(),
            match progress {
                Some(p) => {
                    &&& old(self)@.dom().contains(category_id)
                    &&& final(self)@ == old(self)@.insert(category_id, advanced(old(self)@[category_id], batch_size as int))
                    &&& resource_views(p.current_batch@) == next_batch_of(old(self)@[category_id], batch_size as int)
                    &&& p.total_files == final(self)@[category_id].resources.len()
                    &&& p.scanned_files == final(self)@[category_id].cursor
                    &&& p.is_complete == final(self)@[category_id].complete
                    &&& 0 <= p.scanned_files <= p.total_files
                    &&& p.is_complete <==> p.scanned_files == p.total_files
                    &&& p.current_batch.len() <= batch_size
                    &&& p.current_batch.len() == batch_size || p.is_complete
                },
                None => !old(self)@.dom().contains(category_id) && final(self)@ == old(self)@,
            },
    {
        match self.sessions.remove(&category_id) {
            None => {
                assert(final(self)@ =~= old(self)@);
                None
            },
            Some(session) => {
                let mut session = session;
                let ghost before = session@;
                proof {
                    assert(old(self).sessions@.dom().contains(category_id));
                    assert(before == old(self)@[category_id]);
                    assert(sound_session(before, category_id));
                }
                let current_batch = session.get_next_batch(batch_size);
                assert(resource_views(current_batch@).len() == current_batch.len());
                assert(session@ == advanced(before, batch_size as int));
                let progress = ScanProgress {
                    total_files: session.get_total_count(),
                    scanned_files: session.get_scanned_count(),
                    current_batch,
                    is_complete: session.is_complete(),
                };
                self.sessions.insert(category_id, session);
                assert(final(self)@ =~= old(self)@.insert(category_id, advanced(old(self)@[category_id], batch_size as int)));
                Some(progress)
            },
        }
    }
}

} // verus!
