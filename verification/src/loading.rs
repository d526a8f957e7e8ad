//! The loading status: which asset loads are still pending, whether the
//! render pipelines are ready, and the debounce that turns "nothing pending"
//! into `Ready` only after enough consecutive clean frames.

use vstd::prelude::*;

verus! {

/// The number of consecutive clean frames asked for where nothing else is
/// chosen.
pub const DEFAULT_CONFIRMATION_FRAMES: usize = 5;

/// Whether the requested assets are still loading or ready to be shown.
#[derive(Clone, Copy, Debug, PartialEq, Eq, Structural)]
pub enum LoadingState {
    Ready,
    Loading,
}

impl Default for LoadingState {
    fn default() -> (state: Self)
        ensures
            state == LoadingState::Ready,
    {
        LoadingState::Ready
    }
}

/// Whether the renderer has compiled every pipeline it is waiting for.
#[derive(Clone, Copy, Debug)]
pub struct PipelinesReady(pub bool);

impl Default for PipelinesReady {
    fn default() -> (ready: Self)
        ensures
            ready.0 == false,
    {
        PipelinesReady(false)
    }
}

/// The pending loads and the confirmation counter.
///
/// A handle is the number by which a load is told apart from the others; a
/// handle is pending at most once.
#[derive(Debug)]
pub struct LoadingData {
    loading_assets: Vec<usize>,
    confirmation_frames_target: usize,
    confirmation_frames_count: usize,
}

/// What a `LoadingData` holds: the set of pending handles, the number of
/// clean frames asked for, and the number counted so far.
pub struct LoadingModel {
    pub pending: Set<usize>,
    pub target: nat,
    pub count: nat,
}

/// The model after a load has been registered: the handle is pending and
/// the count starts over.
pub open spec fn registered(m: LoadingModel, handle: usize) -> LoadingModel {
    LoadingModel { pending: m.pending.insert(handle), target: m.target, count: 0 }
}

/// The model after a load has completed: the handle is no longer pending.
pub open spec fn completed(m: LoadingModel, handle: usize) -> LoadingModel {
    LoadingModel { pending: m.pending.remove(handle), target: m.target, count: m.count }
}

/// The model after every pending load has been abandoned.
pub open spec fn cleared(m: LoadingModel) -> LoadingModel {
    LoadingModel { pending: Set::empty(), target: m.target, count: 0 }
}

/// A frame is clean when nothing is pending and the pipelines are ready.
pub open spec fn is_clean(m: LoadingModel, pipelines_ready: bool) -> bool {
    m.pending.is_empty() && pipelines_ready
}

/// One frame of the status rule.
///
/// On a frame that is not clean the count starts over, the status is
/// `Loading`, and the loads reported as `loaded` stop being pending. On a
/// clean frame the count goes up by one, but not beyond the target; once it
/// has reached the target the status is `Ready`, and before that the status
/// stays what it was.
pub open spec fn ticked(
    m: LoadingModel,
    state: LoadingState,
    pipelines_ready: bool,
    loaded: Set<usize>,
) -> (LoadingModel, LoadingState) {
    if !is_clean(m, pipelines_ready) {
        (
            LoadingModel { pending: m.pending.difference(loaded), target: m.target, count: 0 },
            LoadingState::Loading,
        )
    } else {
        let count = if m.count < m.target {
            m.count + 1
        } else {
            m.count
        };
        (
            LoadingModel { pending: m.pending, target: m.target, count: count as nat },
            if count >= m.target {
                LoadingState::Ready
            } else {
                state
            },
        )
    }
}

/// The model and status after `frames` frames in a row during which no load
/// is registered, none completes, and the pipelines stay as they are.
pub open spec fn after_frames(
    m: LoadingModel,
    state: LoadingState,
    pipelines_ready: bool,
    frames: nat,
) -> (LoadingModel, LoadingState)
    decreases frames,
{
    if frames == 0 {
        (m, state)
    } else {
        let before = after_frames(m, state, pipelines_ready, (frames - 1) as nat);
        ticked(before.0, before.1, pipelines_ready, Set::empty())
    }
}

/// Appending a value that a sequence without repeats lacks keeps it without
/// repeats and adds the value to its set.
proof fn lemma_push_fresh(s: Seq<usize>, h: usize)
    requires
        s.no_duplicates(),
        !s.contains(h),
    ensures
        s.push(h).no_duplicates(),
        s.push(h).to_set() == s.to_set().insert(h),
{
    let t = s.push(h);
    assert forall|i: int, j: int| 0 <= i < t.len() && 0 <= j < t.len() && i != j implies t[i]
        != t[j] by {
        if i < s.len() {
            assert(s[i] == t[i]);
        }
        if j < s.len() {
            assert(s[j] == t[j]);
        }
    }
    assert forall|x: usize| t.to_set().contains(x) <==> s.to_set().insert(h).contains(x) by {
        if t.contains(x) {
            let i = choose|i: int| 0 <= i < t.len() && t[i] == x;
            if i < s.len() {
                assert(s[i] == x);
            }
        }
        if s.contains(x) {
            let i = choose|i: int| 0 <= i < s.len() && s[i] == x;
            assert(t[i] == x);
        }
        if x == h {
            assert(t[s.len() as int] == x);
        }
    }
    assert(t.to_set() =~= s.to_set().insert(h));
}

/// Taking one value out of a sequence without repeats keeps it without
/// repeats and takes the value out of its set.
proof fn lemma_remove_at(s: Seq<usize>, at: int)
    requires
        s.no_duplicates(),
        0 <= at < s.len(),
    ensures
        s.remove(at).no_duplicates(),
        s.remove(at).to_set() == s.to_set().remove(s[at]),
{
    let t = s.remove(at);
    assert forall|i: int| 0 <= i < t.len() implies t[i] == s[if i < at {
        i
    } else {
        i + 1
    }] by {}
    assert forall|i: int, j: int| 0 <= i < t.len() && 0 <= j < t.len() && i != j implies t[i]
        != t[j] by {}
    assert forall|x: usize| t.to_set().contains(x) <==> s.to_set().remove(s[at]).contains(x) by {
        if t.contains(x) {
            let i = choose|i: int| 0 <= i < t.len() && t[i] == x;
            let k = if i < at {
                i
            } else {
                i + 1
            };
            assert(s[k] == x);
        }
        if s.contains(x) && x != s[at] {
            let k = choose|k: int| 0 <= k < s.len() && s[k] == x;
            let i = if k < at {
                k
            } else {
                k - 1
            };
            assert(t[i] == x);
        }
    }
    assert(t.to_set() =~= s.to_set().remove(s[at]));
}

/// The set of the first `n + 1` values of a sequence is that of the first
/// `n` with the next value added.
proof fn lemma_take_one_more(s: Seq<usize>, n: int)
    requires
        0 <= n < s.len(),
    ensures
        s.take(n + 1).to_set() == s.take(n).to_set().insert(s[n]),
{
    let t = s.take(n + 1);
    let u = s.take(n);
    assert forall|x: usize| t.to_set().contains(x) <==> u.to_set().insert(s[n]).contains(x) by {
        if t.contains(x) {
            let i = choose|i: int| 0 <= i < t.len() && t[i] == x;
            if i < n {
                assert(u[i] == x);
            }
        }
        if u.contains(x) {
            let i = choose|i: int| 0 <= i < u.len() && u[i] == x;
            assert(t[i] == x);
        }
        if x == s[n] {
            assert(t[n] == x);
        }
    }
    assert(t.to_set() =~= u.to_set().insert(s[n]));
}

impl View for LoadingData {
    type V = LoadingModel;

    closed spec fn view(&self) -> LoadingModel {
        LoadingModel {
            pending: self.loading_assets@.to_set(),
            target: self.confirmation_frames_target as nat,
            count: self.confirmation_frames_count as nat,
        }
    }
}

impl Default for LoadingData {
    /// Nothing pending, nothing counted, and the default number of clean
    /// frames asked for.
    fn default() -> (data: Self)
        ensures
            data@ == (LoadingModel {
                pending: Set::empty(),
                target: DEFAULT_CONFIRMATION_FRAMES as nat,
                count: 0,
            }),
    {
        LoadingData::new(DEFAULT_CONFIRMATION_FRAMES)
    }
}

impl LoadingData {
    /// No handle is pending twice, and no more frames are counted than are
    /// asked for.
    #[verifier::type_invariant]
    spec fn inv(self) -> bool {
        &&& self.loading_assets@.no_duplicates()
        &&& self.confirmation_frames_count <= self.confirmation_frames_target
    }

    /// Nothing pending, nothing counted, and `confirmation_frames_target`
    /// clean frames asked for.
    pub fn new(confirmation_frames_target: usize) -> (data: Self)
        ensures
            data@ == (LoadingModel {
                pending: Set::empty(),
                target: confirmation_frames_target as nat,
                count: 0,
            }),
    {
        let data = LoadingData {
            loading_assets: Vec::new(),
            confirmation_frames_target,
            confirmation_frames_count: 0,
        };
        assert(data.loading_assets@.to_set() =~= Set::empty());
        data
    }

    /// The position of `handle` among the pending loads.
    fn position(&self, handle: usize) -> (found: Option<usize>)
        ensures
            match found {
                Some(i) => i < self.loading_assets@.len() && self.loading_assets@[i as int]
                    == handle,
                None => !self.loading_assets@.contains(handle),
            },
    {
        let mut i: usize = 0;
        while i < self.loading_assets.len()
            invariant
                i <= self.loading_assets@.len(),
                forall|j: int| 0 <= j < i ==> self.loading_assets@[j] != handle,
            decreases self.loading_assets@.len() - i,
        {
            if self.loading_assets[i] == handle {
                return Some(i);
            }
            i = i + 1;
        }
        None
    }

    /// Moves the pending handles out, to be changed and put back.
    fn take_assets(&mut self) -> (assets: Vec<usize>)
        ensures
            assets == old(self).loading_assets,
            assets@.no_duplicates(),
            final(self).loading_assets@.len() == 0,
            final(self).confirmation_frames_target == old(self).confirmation_frames_target,
            final(self).confirmation_frames_count == old(self).confirmation_frames_count,
            final(self).confirmation_frames_count <= final(self).confirmation_frames_target,
    {
        proof {
            use_type_invariant(&*self);
        }
        let mut assets: Vec<usize> = Vec::new();
        core::mem::swap(&mut self.loading_assets, &mut assets);
        assets
    }

    /// Registers a load: `asset` becomes pending, once however often it is
    /// registered, and the count of clean frames starts over.
    pub fn add_asset(&mut self, asset: usize)
        ensures
            final(self)@ == registered(old(self)@, asset),
    {
        if self.position(asset).is_none() {
            let mut assets = self.take_assets();
            proof {
                lemma_push_fresh(assets@, asset);
            }
            assets.push(asset);
            self.loading_assets = assets;
        } else {
            assert(self.loading_assets@.to_set() =~= self.loading_assets@.to_set().insert(asset));
        }
        proof {
            use_type_invariant(&*self);
        }
        self.confirmation_frames_count = 0;
    }

    /// Records that a load has completed: `asset` is no longer pending. A
    /// handle that is not pending is ignored.
    pub fn mark_complete(&mut self, asset: usize)
        ensures
            final(self)@ == completed(old(self)@, asset),
    {
        match self.position(asset) {
            Some(i) => {
                let mut assets = self.take_assets();
                proof {
                    lemma_remove_at(assets@, i as int);
                }
                assets.remove(i);
                self.loading_assets = assets;
            },
            None => {
                assert(self.loading_assets@.to_set() =~= old(self).loading_assets@.to_set().remove(
                    asset,
                ));
            },
        }
    }

    /// Abandons every pending load and starts the count over.
    pub fn clear(&mut self)
        ensures
            final(self)@ == cleared(old(self)@),
    {
        proof {
            use_type_invariant(&*self);
        }
        self.loading_assets = Vec::new();
        self.confirmation_frames_count = 0;
        assert(self.loading_assets@.to_set() =~= Set::empty());
    }

    /// Whether any load is pending.
    pub fn has_pending(&self) -> (pending: bool)
        ensures
            pending == !self@.pending.is_empty(),
    {
        let pending = self.loading_assets.len() > 0;
        proof {
            if pending {
                assert(self.loading_assets@.to_set().contains(self.loading_assets@[0]));
            } else {
                assert(self.loading_assets@.to_set() =~= Set::empty());
            }
        }
        pending
    }

    /// Whether `asset` is pending.
    pub fn is_pending(&self, asset: usize) -> (pending: bool)
        ensures
            pending == self@.pending.contains(asset),
    {
        self.position(asset).is_some()
    }

    /// The pending handles, each once.
    pub fn pending_assets(&self) -> (assets: Vec<usize>)
        ensures
            assets@.to_set() == self@.pending,
            assets@.no_duplicates(),
    {
        proof {
            use_type_invariant(self);
        }
        self.loading_assets.clone()
    }

    /// The number of clean frames counted so far.
    pub fn confirmation_frames_count(&self) -> (count: usize)
        ensures
            count == self@.count,
    {
        self.confirmation_frames_count
    }

    /// The number of clean frames asked for.
    pub fn confirmation_frames_target(&self) -> (target: usize)
        ensures
            target == self@.target,
    {
        self.confirmation_frames_target
    }
}


/// Whether the status is `Loading`.
pub fn is_loading(state: &LoadingState) -> (loading: bool)
    ensures
        loading == (*state == LoadingState::Loading),
{
    match state {
        LoadingState::Loading => true,
        LoadingState::Ready => false,
    }
}

/// Sets the status to `Loading`, as when what is shown is about to be
/// replaced.
pub fn unload_current_visualization(loading_state: &mut LoadingState)
    ensures
        *final(loading_state) == LoadingState::Loading,
{
    *loading_state = LoadingState::Loading;
}

/// The pipelines are ready when the renderer waits for none of them.
pub fn update_pipelines_ready(pipelines_ready: &mut PipelinesReady, waiting_pipelines: usize)
    ensures
        final(pipelines_ready).0 == (waiting_pipelines == 0),
{
    pipelines_ready.0 = waiting_pipelines == 0;
}

/// One frame of the status rule: see `ticked`. `loaded` lists the loads that
/// the asset server reports as complete; handles in it that are not pending
/// are ignored.
pub fn update_loading_data(
    loading_data: &mut LoadingData,
    loading_state: &mut LoadingState,
    loaded: &Vec<usize>,
    pipelines_ready: &PipelinesReady,
)
    ensures
        (final(loading_data)@, *final(loading_state)) == ticked(
            old(loading_data)@,
            *old(loading_state),
            pipelines_ready.0,
            loaded@.to_set(),
        ),
{
    let ghost before = loading_data@;
    proof {
        use_type_invariant(&*loading_data);
    }
    if loading_data.has_pending() || !pipelines_ready.0 {
        // Still loading, or the pipelines are not compiled: the count of
        // clean frames starts over.
        loading_data.confirmation_frames_count = 0;
        *loading_state = LoadingState::Loading;
        let mut i: usize = 0;
        assert(before.pending.difference(loaded@.take(0).to_set()) =~= before.pending);
        while i < loaded.len()
            invariant
                i <= loaded@.len(),
                loading_data@.target == before.target,
                loading_data@.count == 0,
                loading_data@.pending == before.pending.difference(
                    loaded@.take(i as int).to_set(),
                ),
            decreases loaded@.len() - i,
        {
            proof {
                lemma_take_one_more(loaded@, i as int);
                assert(before.pending.difference(
                    loaded@.take(i as int).to_set().insert(loaded@[i as int]),
                ) =~= before.pending.difference(loaded@.take(i as int).to_set()).remove(
                    loaded@[i as int],
                ));
            }
            loading_data.mark_complete(loaded[i]);
            i = i + 1;
        }
        assert(loaded@.take(i as int) =~= loaded@);
    } else {
        // Nothing is pending and the pipelines are compiled: one more clean
        // frame, and with enough of them everything counts as loaded.
        if loading_data.confirmation_frames_count < loading_data.confirmation_frames_target {
            loading_data.confirmation_frames_count = loading_data.confirmation_frames_count + 1;
        }
        if loading_data.confirmation_frames_count >= loading_data.confirmation_frames_target {
            *loading_state = LoadingState::Ready;
        }
    }
}

/// Registering a load twice is registering it once.
pub proof fn lemma_register_idempotent(m: LoadingModel, handle: usize)
    ensures
        registered(registered(m, handle), handle) == registered(m, handle),
{
    assert(m.pending.insert(handle).insert(handle) =~= m.pending.insert(handle));
}

/// The completion of a load that is not pending, such as one abandoned when
/// the position changed, changes nothing.
pub proof fn lemma_stale_completion_ignored(m: LoadingModel, handle: usize)
    requires
        !m.pending.contains(handle),
    ensures
        completed(m, handle) == m,
        cleared(m).pending.is_empty(),
        completed(cleared(m), handle) == cleared(m),
{
    assert(m.pending.remove(handle) =~= m.pending);
    assert(Set::<usize>::empty().remove(handle) =~= Set::<usize>::empty());
}

/// After a load has been registered the next frame gives `Loading` and a
/// count of zero, whatever the status was, `Ready` included, and whatever
/// else that frame brings.
pub proof fn lemma_registration_forces_loading(
    m: LoadingModel,
    state: LoadingState,
    handle: usize,
    pipelines_ready: bool,
    loaded: Set<usize>,
)
    ensures
        ticked(registered(m, handle), state, pipelines_ready, loaded).1 == LoadingState::Loading,
        ticked(registered(m, handle), state, pipelines_ready, loaded).0.count == 0,
{
    assert(registered(m, handle).pending.contains(handle));
}

/// While a load is pending or the pipelines are not ready, and no load
/// completes, every frame leaves the status at `Loading`, however many
/// frames pass.
pub proof fn lemma_loading_until_clean(
    m: LoadingModel,
    state: LoadingState,
    pipelines_ready: bool,
    frames: nat,
)
    requires
        !is_clean(m, pipelines_ready),
        frames >= 1,
    ensures
        after_frames(m, state, pipelines_ready, frames).1 == LoadingState::Loading,
        after_frames(m, state, pipelines_ready, frames).0.pending == m.pending,
        after_frames(m, state, pipelines_ready, frames).0.count == 0,
    decreases frames,
{
    if frames > 1 {
        lemma_loading_until_clean(m, state, pipelines_ready, (frames - 1) as nat);
    }
    let before = after_frames(m, state, pipelines_ready, (frames - 1) as nat);
    assert(before.0.pending == m.pending);
    assert(before.0.pending.difference(Set::empty()) =~= before.0.pending);
}

/// The debounce: from `Loading` with nothing pending, the pipelines ready
/// and nothing counted yet, the status is `Ready` after `frames` clean
/// frames exactly when `frames` has reached the target (and at least one
/// frame has passed). Until then the count is the number of frames.
pub proof fn lemma_ready_after_target_frames(m: LoadingModel, frames: nat)
    requires
        m.pending.is_empty(),
        m.count == 0,
    ensures
        after_frames(m, LoadingState::Loading, true, frames).1 == LoadingState::Ready <==> (frames
            >= m.target && frames >= 1),
        after_frames(m, LoadingState::Loading, true, frames).0.pending == m.pending,
        after_frames(m, LoadingState::Loading, true, frames).0.target == m.target,
        after_frames(m, LoadingState::Loading, true, frames).0.count == if frames <= m.target {
            frames
        } else {
            m.target
        },
    decreases frames,
{
    if frames > 0 {
        lemma_ready_after_target_frames(m, (frames - 1) as nat);
    }
}

} // verus!
