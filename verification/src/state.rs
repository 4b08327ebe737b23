use vstd::prelude::*;

verus! {

/// A snapshot of the dynamic state of a plot: the state of each block and
/// whether each wire carries a signal, by identifier.
#[derive(Debug)]
pub struct PlotState {
    blocks: Vec<(u64, State)>,
    connections: Vec<(u64, bool)>,
}

/// The stored state of one block: nothing, a bit vector, or (for an
/// instance of a custom module) a snapshot of the module's plot.
#[derive(Debug)]
pub enum State {
    Empty,
    Direct(u128),
    Inherit(PlotState),
}

/// The mathematical value of a state.
pub enum StateView {
    Empty,
    Direct(u128),
    Inherit(Seq<(u64, StateView)>, Seq<(u64, bool)>),
}

pub closed spec fn state_view(s: State) -> StateView
    decreases s,
{
    match s {
        State::Empty => StateView::Empty,
        State::Direct(x) => StateView::Direct(x),
        State::Inherit(ps) => StateView::Inherit(
            states_view(ps.blocks@),
            ps.connections@,
        ),
    }
}

pub closed spec fn states_view(s: Seq<(u64, State)>) -> Seq<(u64, StateView)>
    decreases s,
{
    if s.len() == 0 {
        seq![]
    } else {
        states_view(s.drop_last()).push((s.last().0, state_view(s.last().1)))
    }
}

pub proof fn lemma_states_view_push(s: Seq<(u64, State)>, x: (u64, State))
    ensures
        states_view(s.push(x)) == states_view(s).push((x.0, state_view(x.1))),
{
    assert(s.push(x).drop_last() =~= s);
}

pub proof fn lemma_states_view_prefix(s: Seq<(u64, State)>, i: int)
    requires
        0 <= i < s.len(),
    ensures
        states_view(s.subrange(0, i + 1)) == states_view(s.subrange(0, i)).push(
            (s[i].0, state_view(s[i].1)),
        ),
{
    assert(s.subrange(0, i + 1).drop_last() =~= s.subrange(0, i));
}

pub proof fn lemma_states_view(s: Seq<(u64, State)>)
    ensures
        states_view(s).len() == s.len(),
        forall|i: int| 0 <= i < s.len() ==> #[trigger] states_view(s)[i] == (s[i].0, state_view(s[i].1)),
    decreases s.len(),
{
    if s.len() > 0 {
        lemma_states_view(s.drop_last());
    }
}

/// Index of the first entry for `key`.
pub open spec fn assoc_index<T>(s: Seq<(u64, T)>, key: u64) -> Option<int>
    decreases s.len(),
{
    if s.len() == 0 {
        None
    } else {
        match assoc_index(s.drop_last(), key) {
            Some(i) => Some(i),
            None => if s.last().0 == key {
                Some(s.len() - 1)
            } else {
                None
            },
        }
    }
}

pub proof fn lemma_assoc_index<T>(s: Seq<(u64, T)>, key: u64)
    ensures
        assoc_index(s, key) matches Some(i) ==> 0 <= i < s.len() && s[i].0 == key && forall|j: int|
            0 <= j < i ==> s[j].0 != key,
        assoc_index(s, key) is None ==> forall|j: int| 0 <= j < s.len() ==> s[j].0 != key,
    decreases s.len(),
{
    if s.len() > 0 {
        let d = s.drop_last();
        lemma_assoc_index(d, key);
        assert(forall|j: int| 0 <= j < d.len() ==> d[j] == s[j]);
    }
}

pub proof fn lemma_assoc_index_first<T>(s: Seq<(u64, T)>, key: u64, i: int)
    requires
        0 <= i < s.len(),
        s[i].0 == key,
        forall|j: int| 0 <= j < i ==> s[j].0 != key,
    ensures
        assoc_index(s, key) == Some(i),
{
    lemma_assoc_index(s, key);
    if let Some(k) = assoc_index(s, key) {
        assert(k == i);
    }
}

/// The value stored for `key` (the first entry for it).
pub open spec fn assoc_get<T>(s: Seq<(u64, T)>, key: u64) -> Option<T> {
    match assoc_index(s, key) {
        Some(i) => Some(s[i].1),
        None => None,
    }
}

pub proof fn lemma_assoc_get_push<T>(s: Seq<(u64, T)>, x: (u64, T), key: u64)
    ensures
        assoc_get(s.push(x), key) == match assoc_get(s, key) {
            Some(v) => Some(v),
            None => if x.0 == key {
                Some(x.1)
            } else {
                None
            },
        },
{
    assert(s.push(x).drop_last() =~= s);
    lemma_assoc_index(s, key);
    if let Some(i) = assoc_index(s, key) {
        assert(s.push(x)[i] == s[i]);
    }
}

/// A state that holds a snapshot is viewed as the snapshot's entries.
pub proof fn lemma_inherit_view(ps: PlotState)
    ensures
        State::Inherit(ps)@ == StateView::Inherit(ps.spec_blocks(), ps.spec_connections()),
{
}

/// A state is viewed as a snapshot exactly when it holds one.
pub proof fn lemma_state_view_kind(s: State)
    ensures
        (s is Inherit) == (s@ is Inherit),
{
}

impl View for State {
    type V = StateView;

    open spec fn view(&self) -> StateView {
        state_view(*self)
    }
}

impl PlotState {
    /// The stored block states.
    pub closed spec fn spec_blocks(&self) -> Seq<(u64, StateView)> {
        states_view(self.blocks@)
    }

    /// The stored wire states.
    pub closed spec fn spec_connections(&self) -> Seq<(u64, bool)> {
        self.connections@
    }

    /// The empty snapshot.
    pub fn new() -> (s: Self)
        ensures
            s.spec_blocks() == Seq::<(u64, StateView)>::empty(),
            s.spec_connections() == Seq::<(u64, bool)>::empty(),
    {
        let s = PlotState { blocks: Vec::new(), connections: Vec::new() };
        proof {
            assert(states_view(s.blocks@) =~= Seq::<(u64, StateView)>::empty());
        }
        s
    }

    /// Records the state of block `id` (after those already recorded).
    pub fn push_block(&mut self, id: u64, state: State)
        ensures
            final(self).spec_blocks() == old(self).spec_blocks().push((id, state@)),
            final(self).spec_connections() == old(self).spec_connections(),
    {
        proof {
            lemma_states_view_push(self.blocks@, (id, state));
        }
        self.blocks.push((id, state));
    }

    /// Records whether wire `id` carries a signal.
    pub fn push_connection(&mut self, id: u64, active: bool)
        ensures
            final(self).spec_blocks() == old(self).spec_blocks(),
            final(self).spec_connections() == old(self).spec_connections().push((id, active)),
    {
        self.connections.push((id, active));
    }

    /// The recorded state of block `id`, if any.
    pub fn block_state(&self, id: u64) -> (s: Option<&State>)
        ensures
            s is Some == assoc_get(self.spec_blocks(), id) is Some,
            s matches Some(st) ==> Some(st@) == assoc_get(self.spec_blocks(), id),
    {
        proof {
            lemma_states_view(self.blocks@);
        }
        let mut i: usize = 0;
        #[verifier::loop_isolation(false)]
        while i < self.blocks.len()
            invariant
                0 <= i <= self.blocks.len(),
                forall|j: int| 0 <= j < i ==> self.blocks@[j].0 != id,
            decreases self.blocks.len() - i,
        {
            if self.blocks[i].0 == id {
                proof {
                    lemma_assoc_index_first(self.spec_blocks(), id, i as int);
                }
                return Some(&self.blocks[i].1);
            }
            i = i + 1;
        }
        proof {
            lemma_assoc_index(self.spec_blocks(), id);
        }
        None
    }

    /// The recorded state of wire `id`, if any.
    pub fn connection_state(&self, id: u64) -> (s: Option<bool>)
        ensures
            s == assoc_get(self.spec_connections(), id),
    {
        let mut i: usize = 0;
        while i < self.connections.len()
            invariant
                0 <= i <= self.connections.len(),
                forall|j: int| 0 <= j < i ==> self.connections@[j].0 != id,
            decreases self.connections.len() - i,
        {
            if self.connections[i].0 == id {
                proof {
                    lemma_assoc_index_first(self.connections@, id, i as int);
                }
                return Some(self.connections[i].1);
            }
            i = i + 1;
        }
        proof {
            lemma_assoc_index(self.connections@, id);
        }
        None
    }

    /// A copy of the snapshot.
    pub fn duplicate(&self) -> (s: Self)
        ensures
            s.spec_blocks() == self.spec_blocks(),
            s.spec_connections() == self.spec_connections(),
        decreases self,
    {
        let mut blocks: Vec<(u64, State)> = Vec::new();
        let mut i: usize = 0;
        while i < self.blocks.len()
            invariant
                0 <= i <= self.blocks.len(),
                states_view(blocks@) == states_view(self.blocks@.subrange(0, i as int)),
            decreases self.blocks.len() - i,
        {
            proof {
                lemma_states_view_prefix(self.blocks@, i as int);
                assert(decreases_to!(*self => self.blocks@[i as int].1)) by {
                    assert(decreases_to!(*self => self.blocks));
                    assert(decreases_to!(self.blocks => self.blocks@));
                    assert(decreases_to!(self.blocks@ => self.blocks@[i as int]));
                    assert(decreases_to!(self.blocks@[i as int] => self.blocks@[i as int].1));
                }
            }
            let copy = self.blocks[i].1.duplicate();
            proof {
                lemma_states_view_push(blocks@, (self.blocks@[i as int].0, copy));
            }
            blocks.push((self.blocks[i].0, copy));
            i = i + 1;
        }
        let mut connections: Vec<(u64, bool)> = Vec::new();
        let mut j: usize = 0;
        while j < self.connections.len()
            invariant
                0 <= j <= self.connections.len(),
                connections@ == self.connections@.subrange(0, j as int),
            decreases self.connections.len() - j,
        {
            connections.push(self.connections[j]);
            j = j + 1;
        }
        proof {
            assert(self.blocks@.subrange(0, self.blocks.len() as int) =~= self.blocks@);
            assert(self.connections@.subrange(0, self.connections.len() as int)
                =~= self.connections@);
        }
        PlotState { blocks, connections }
    }
}

impl State {
    /// The state of a block that has never been simulated.
    pub fn new_empty() -> (s: Self)
        ensures
            s@ == StateView::Empty,
    {
        State::Empty
    }

    /// A copy of the state.
    pub fn duplicate(&self) -> (s: Self)
        ensures
            s@ == self@,
        decreases self,
    {
        match self {
            State::Empty => State::Empty,
            State::Direct(x) => State::Direct(*x),
            State::Inherit(ps) => {
                proof {
                    assert(decreases_to!(*self => *ps));
                }
                State::Inherit(ps.duplicate())
            },
        }
    }
}

impl Clone for PlotState {
    fn clone(&self) -> (s: Self)
        ensures
            s.spec_blocks() == self.spec_blocks(),
            s.spec_connections() == self.spec_connections(),
    {
        self.duplicate()
    }
}

impl Clone for State {
    fn clone(&self) -> (s: Self)
        ensures
            s@ == self@,
    {
        self.duplicate()
    }
}

impl Default for PlotState {
    fn default() -> (s: Self)
        ensures
            s.spec_blocks() == Seq::<(u64, StateView)>::empty(),
            s.spec_connections() == Seq::<(u64, bool)>::empty(),
    {
        PlotState::new()
    }
}

impl Default for State {
    fn default() -> (s: Self)
        ensures
            s@ == StateView::Empty,
    {
        State::Empty
    }
}

impl PlotState {
    /// A snapshot with the given entries, as stored in a project file.
    pub fn from_parts(blocks: Vec<(u64, State)>, connections: Vec<(u64, bool)>) -> (s: Self)
        ensures
            s.spec_blocks() == states_view(blocks@),
            s.spec_connections() == connections@,
    {
        PlotState { blocks, connections }
    }

    /// The recorded block states, in order.
    pub fn block_entries(&self) -> (b: &Vec<(u64, State)>)
        ensures
            states_view(b@) == self.spec_blocks(),
    {
        &self.blocks
    }

    /// The recorded wire signals, in order.
    pub fn connection_entries(&self) -> (c: &Vec<(u64, bool)>)
        ensures
            c@ == self.spec_connections(),
    {
        &self.connections
    }
}

} // verus!
