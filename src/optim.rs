use vstd::prelude::*;
use crate::grads::Grads;
use crate::value::GradValue;

verus! {

/// The map that a sequence of registrations leaves: a later registration of a
/// name replaces an earlier one.
pub open spec fn registered<T>(s: Seq<(Seq<char>, T)>) -> Map<Seq<char>, T>
    decreases s.len(),
{
    if s.len() == 0 {
        Map::empty()
    } else {
        registered(s.drop_last()).insert(s.last().0, s.last().1)
    }
}

/// Where no registration from position `i` on names `k`, the map agrees on
/// `k` with the registrations before `i`.
proof fn lemma_registered_suffix<T>(s: Seq<(Seq<char>, T)>, i: int, k: Seq<char>)
    requires
        0 <= i <= s.len(),
        forall|j: int| i <= j < s.len() ==> (#[trigger] s[j]).0 != k,
    ensures
        registered(s).contains_key(k) == registered(s.subrange(0, i)).contains_key(k),
        registered(s).contains_key(k) ==> registered(s)[k] == registered(s.subrange(0, i))[k],
    decreases s.len(),
{
    if i == s.len() {
        assert(s.subrange(0, i) =~= s);
    } else {
        assert(s.drop_last().subrange(0, i) =~= s.subrange(0, i));
        assert(s[s.len() - 1].0 != k);
        lemma_registered_suffix(s.drop_last(), i, k);
    }
}

/// Auxiliary state stored under names, such as an optimizer's per-parameter
/// tensors.
pub struct StateNamed<T> {
    entries: Vec<(String, T)>,
}

impl<T> StateNamed<T> {
    /// The registrations made, in order.
    closed spec fn log(&self) -> Seq<(Seq<char>, T)> {
        self.entries@.map_values(|e: (String, T)| (e.0@, e.1))
    }

    /// The state as a map from name to value.
    pub closed spec fn view(&self) -> Map<Seq<char>, T> {
        registered(self.log())
    }

    /// A state with no name registered.
    pub fn new() -> (r: Self)
        ensures
            r@ == Map::<Seq<char>, T>::empty(),
    {
        let r = StateNamed { entries: Vec::new() };
        assert(r.log() =~= Seq::<(Seq<char>, T)>::empty());
        r
    }

    /// Stores `value` under `name`, replacing what was there.
    pub fn register_state(&mut self, name: String, value: T)
        ensures
            final(self)@ == old(self)@.insert(name@, value),
    {
        self.entries.push((name, value));
        assert(self.log().drop_last() =~= old(self).log());
    }

    /// The value stored under `name`, if any.
    pub fn get(&self, name: &String) -> (r: Option<&T>)
        ensures
            r is Some == self@.contains_key(name@),
            r is Some ==> *r->Some_0 == self@[name@],
    {
        let mut i: usize = self.entries.len();
        while i > 0
            invariant
                i <= self.entries@.len(),
                forall|j: int| i <= j < self.log().len() ==> (#[trigger] self.log()[j]).0 != name@,
            decreases i,
        {
            i = i - 1;
            if self.entries[i].0.eq(name) {
                proof {
                    let s = self.log();
                    lemma_registered_suffix(s, i + 1, name@);
                    assert(s.subrange(0, i + 1).drop_last() =~= s.subrange(0, i as int));
                    assert(s.subrange(0, i + 1).last() == s[i as int]);
                }
                return Some(&self.entries[i].1);
            }
        }
        proof {
            lemma_registered_suffix(self.log(), 0, name@);
        }
        None
    }
}

/// The saved state of an optimizer or a module: named parts, or one value.
pub enum State<T> {
    StateNamed(StateNamed<T>),
    Data(T),
}

/// Why a state could not be loaded.
#[derive(Debug, PartialEq, Eq)]
pub enum LoadingError {
    /// The state holds a single value where named parts were expected.
    NotNamed,
}

/// An optimizer: it updates parameters from their gradients and keeps
/// per-parameter state (a momentum, say) that can be saved and loaded.
pub trait Optimizer<T> {
    /// Registers the optimizer's state for parameter `id` in `state`. By
    /// default there is no state to register.
    fn register_param_state(&self, _id: usize, _state: &mut StateNamed<T>) {
    }

    /// Loads the optimizer's state for parameter `id` from `state`. By default
    /// there is no state to load.
    fn load_param_state(&mut self, _id: usize, _state: &StateNamed<T>) {
    }
}

/// The state of `optim` for the parameters `params` of a module, as named parts.
pub fn optimizer_state<T, O: Optimizer<T>>(optim: &O, params: &Vec<usize>) -> (r: State<T>)
    ensures
        r is StateNamed,
{
    let mut named: StateNamed<T> = StateNamed::new();
    let mut i: usize = 0;
    while i < params.len()
        decreases params@.len() - i,
    {
        optim.register_param_state(params[i], &mut named);
        i = i + 1;
    }
    State::StateNamed(named)
}

/// Loads the state of `optim` for the parameters `params` of a module; a state
/// that is not made of named parts is refused.
pub fn load_optimizer<T, O: Optimizer<T>>(optim: &mut O, params: &Vec<usize>, state: &State<T>) -> (r: Result<
    (),
    LoadingError,
>)
    ensures
        r is Ok <==> state is StateNamed,
        r is Err ==> r == Err::<(), LoadingError>(LoadingError::NotNamed),
{
    let named = match state {
        State::StateNamed(named) => named,
        State::Data(_) => {
            return Err(LoadingError::NotNamed);
        },
    };
    let mut i: usize = 0;
    while i < params.len()
        decreases params@.len() - i,
    {
        optim.load_param_state(params[i], named);
        i = i + 1;
    }
    Ok(())
}

/// Stores the gradient of node `id`, if `grads` has one, in `state` under the
/// name that `id_to_key` gives `id`; leaves `state` as it was otherwise.
pub fn register_state_gradients<T: GradValue, F: Fn(usize) -> String>(
    id: usize,
    state: &mut StateNamed<T>,
    grads: &Grads<T>,
    id_to_key: F,
)
    requires
        call_requires(id_to_key, (id,)),
    ensures
        !grads@.contains_key(id) ==> final(state)@ == old(state)@,
        grads@.contains_key(id) ==> exists|k: String|
            call_ensures(id_to_key, (id,), k) && #[trigger] final(state)@ == old(state)@.insert(k@, grads@[id]),
{
    match grads.get(id) {
        Some(g) => {
            let key = id_to_key(id);
            state.register_state(key, g.duplicate());
        },
        None => {},
    }
}

/// Puts the value that `state` holds under the name that `id_to_key` gives
/// `id`, if any, into `grads` as the entry of node `id`; leaves `grads` as it
/// was otherwise.
pub fn load_state_gradients<T: GradValue, F: Fn(usize) -> String>(
    id: usize,
    state: &StateNamed<T>,
    grads: &mut Grads<T>,
    id_to_key: F,
)
    requires
        call_requires(id_to_key, (id,)),
    ensures
        exists|k: String|
            #[trigger] call_ensures(id_to_key, (id,), k) && (if state@.contains_key(k@) {
                final(grads)@ == old(grads)@.insert(id, state@[k@])
            } else {
                final(grads)@ == old(grads)@
            }),
{
    let key = id_to_key(id);
    match state.get(&key) {
        Some(v) => {
            grads.register(id, v.duplicate());
        },
        None => {},
    }
}

} // verus!
